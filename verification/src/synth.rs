//! Synthesis voices: one oscillator kind, one pitch and one amplitude
//! envelope each, advanced one sample at a time.
//!
//! The envelope level is an integer between 0 and [`FULL_LEVEL`]; one unit is
//! `1 / SR` of full scale, so the per-sample rates are whole numbers.

use vstd::prelude::*;

verus! {

/// Samples per second.
pub const SR: u32 = 44100;

/// The envelope level that stands for amplitude 1.
pub const FULL_LEVEL: u32 = 44100;

/// The level at which a held note rests: eight tenths of full scale.
pub const SUSTAIN_LEVEL: u32 = 35280;

/// Rise of the level per sample while attacking.
pub const ATTACK_RATE: u32 = 16;

/// Fall of the level per sample while decaying.
pub const DECAY_RATE: u32 = 6;

/// Fall of the level per sample while releasing.
pub const RELEASE_RATE: u32 = 4;

/// Phase of the amplitude envelope.
#[derive(Clone, Copy, Debug, PartialEq, Eq, Structural)]
pub enum EnvelopeState {
    /// Rising to full level, then decaying.
    Attack,
    /// Falling from full level to the sustain level.
    Decay,
    /// Resting at the sustain level until released.
    Sustain,
    /// Falling to silence.
    Release,
    /// Released while attacking: rising to full level, then releasing.
    ToBeReleased,
    /// Silent for good.
    Dead,
}

/// Shape of the waveform of a voice.
#[derive(Clone, Copy, Debug, PartialEq, Eq, Structural)]
pub enum Oscillator {
    /// A sine wave.
    Sin,
    /// A ramp from the lowest to the highest value, once per period.
    Sawtooth,
    /// A square wave between the lowest and the highest value.
    Pulse,
    /// A symmetric rise and fall.
    Triangle,
}

/// A voice as mathematics.
pub struct Voice {
    /// Pitch identity; 69 is the A of 440 Hz.
    pub note: nat,
    /// Waveform shape.
    pub osc: Oscillator,
    /// Envelope phase.
    pub state: EnvelopeState,
    /// Envelope level, from 0 to `FULL_LEVEL`.
    pub level: nat,
    /// Number of the last sample produced, wrapping at `usize::MAX`.
    pub num_sample: nat,
}

impl Voice {
    /// The level is within range, and a dead voice is silent.
    pub open spec fn wf(self) -> bool {
        &&& self.note <= usize::MAX
        &&& self.num_sample <= usize::MAX
        &&& self.level <= FULL_LEVEL
        &&& self.state == EnvelopeState::Dead ==> self.level == 0
    }

    /// A new voice: silent, attacking, no sample produced yet.
    pub open spec fn fresh(note: nat, osc: Oscillator) -> Voice {
        Voice { note, osc, state: EnvelopeState::Attack, level: 0, num_sample: 0 }
    }

    /// The voice after its key is pressed: attacking from its present level.
    pub open spec fn pressed(self) -> Voice {
        Voice { state: EnvelopeState::Attack, ..self }
    }

    /// The voice after its key is released. An attacking voice first completes
    /// its rise; any other falls from its present level.
    pub open spec fn released(self) -> Voice {
        Voice {
            state: if self.state == EnvelopeState::Attack {
                EnvelopeState::ToBeReleased
            } else {
                EnvelopeState::Release
            },
            ..self
        }
    }

    /// The voice with another waveform shape.
    pub open spec fn with_oscillator(self, osc: Oscillator) -> Voice {
        Voice { osc, ..self }
    }

    /// Whether the envelope has not yet reached its end.
    pub open spec fn alive(self) -> bool {
        self.state != EnvelopeState::Dead
    }

    /// The voice after one sample of its envelope.
    pub open spec fn enveloped(self) -> Voice {
        match self.state {
            EnvelopeState::Attack => {
                if self.level + ATTACK_RATE >= FULL_LEVEL {
                    Voice { level: FULL_LEVEL as nat, state: EnvelopeState::Decay, ..self }
                } else {
                    Voice { level: self.level + ATTACK_RATE as nat, ..self }
                }
            },
            EnvelopeState::Decay => {
                if self.level - DECAY_RATE <= SUSTAIN_LEVEL {
                    Voice { level: SUSTAIN_LEVEL as nat, state: EnvelopeState::Sustain, ..self }
                } else {
                    Voice { level: (self.level - DECAY_RATE) as nat, ..self }
                }
            },
            EnvelopeState::Sustain => self,
            EnvelopeState::ToBeReleased => {
                if self.level + ATTACK_RATE >= FULL_LEVEL {
                    Voice { level: FULL_LEVEL as nat, state: EnvelopeState::Release, ..self }
                } else {
                    Voice { level: self.level + ATTACK_RATE as nat, ..self }
                }
            },
            EnvelopeState::Release => {
                if self.level - RELEASE_RATE <= 0 {
                    Voice { level: 0, state: EnvelopeState::Dead, ..self }
                } else {
                    Voice { level: (self.level - RELEASE_RATE) as nat, ..self }
                }
            },
            EnvelopeState::Dead => self,
        }
    }

    /// The voice after one sample: the counter moves on, wrapping, and the
    /// envelope takes one step.
    pub open spec fn next(self) -> Voice {
        let counted = Voice {
            num_sample: if self.num_sample >= usize::MAX {
                0
            } else {
                self.num_sample + 1
            },
            ..self
        };
        counted.enveloped()
    }

    /// The voice after `n` samples.
    pub open spec fn after(self, n: nat) -> Voice
        decreases n,
    {
        if n == 0 {
            self
        } else {
            self.after((n - 1) as nat).next()
        }
    }

    /// The levels of the next `n` samples.
    pub open spec fn levels(self, n: nat) -> Seq<nat> {
        Seq::new(n, |i: int| self.after((i + 1) as nat).level)
    }
}

/// A buffer of levels as numbers.
pub open spec fn as_levels(buffer: Seq<u32>) -> Seq<nat> {
    Seq::new(buffer.len(), |i: int| buffer[i] as nat)
}

/// One voice of the engine.
#[derive(Clone, Copy, Debug)]
pub struct MidiNote {
    amplitude: u32,
    note: usize,
    num_sample: usize,
    state: EnvelopeState,
    osc: Oscillator,
}

impl View for MidiNote {
    type V = Voice;

    closed spec fn view(&self) -> Voice {
        Voice {
            note: self.note as nat,
            osc: self.osc,
            state: self.state,
            level: self.amplitude as nat,
            num_sample: self.num_sample as nat,
        }
    }
}

impl MidiNote {
    /// Every voice in hand is well formed.
    #[verifier::type_invariant]
    pub open spec fn wf(&self) -> bool {
        self@.wf()
    }

    /// A new voice at pitch `note`: silent and attacking.
    #[inline]
    pub fn new(note: usize, oscillator: Oscillator) -> (voice: MidiNote)
        ensures
            voice@ == Voice::fresh(note as nat, oscillator),
    {
        MidiNote {
            amplitude: 0,
            note,
            num_sample: 0,
            state: EnvelopeState::Attack,
            osc: oscillator,
        }
    }

    /// Advances the voice by `buffer_len` samples and returns the level of each.
    pub fn get_buffer(&mut self, buffer_len: usize) -> (buffer: Vec<u32>)
        ensures
            final(self)@ == old(self)@.after(buffer_len as nat),
            as_levels(buffer@) == old(self)@.levels(buffer_len as nat),
    {
        let mut buffer: Vec<u32> = Vec::new();
        let mut i: usize = 0;
        while i < buffer_len
            invariant
                i <= buffer_len,
                buffer@.len() == i,
                self@ == old(self)@.after(i as nat),
                forall|k: int| 0 <= k < i ==> buffer@[k] as nat == old(self)@.after((k + 1) as nat).level,
            decreases buffer_len - i,
        {
            let level = self.next();
            buffer.push(level);
            i += 1;
        }
        assert(as_levels(buffer@) =~= old(self)@.levels(buffer_len as nat));
        buffer
    }

    /// Releases the key.
    pub fn release(&mut self)
        ensures
            final(self)@ == old(self)@.released(),
    {
        proof {
            use_type_invariant(&*self);
        }
        self.state = if self.state == EnvelopeState::Attack {
            EnvelopeState::ToBeReleased
        } else {
            EnvelopeState::Release
        };
    }

    /// Presses the key: the envelope attacks again from its present level.
    pub fn press(&mut self)
        ensures
            final(self)@ == old(self)@.pressed(),
    {
        proof {
            use_type_invariant(&*self);
        }
        self.state = EnvelopeState::Attack;
    }

    /// Whether the envelope has not yet reached its end.
    pub fn is_alive(&self) -> (alive: bool)
        ensures
            alive == self@.alive(),
    {
        self.state != EnvelopeState::Dead
    }

    fn apply_envelope(&mut self)
        ensures
            final(self)@ == old(self)@.enveloped(),
    {
        proof {
            use_type_invariant(&*self);
        }
        match self.state {
            EnvelopeState::Attack => {
                if self.amplitude + ATTACK_RATE >= FULL_LEVEL {
                    self.amplitude = FULL_LEVEL;
                    self.state = EnvelopeState::Decay;
                } else {
                    self.amplitude += ATTACK_RATE;
                }
            },
            EnvelopeState::Decay => {
                if self.amplitude <= SUSTAIN_LEVEL + DECAY_RATE {
                    self.amplitude = SUSTAIN_LEVEL;
                    self.state = EnvelopeState::Sustain;
                } else {
                    self.amplitude -= DECAY_RATE;
                }
            },
            EnvelopeState::Sustain => {},
            EnvelopeState::ToBeReleased => {
                if self.amplitude + ATTACK_RATE >= FULL_LEVEL {
                    self.amplitude = FULL_LEVEL;
                    self.state = EnvelopeState::Release;
                } else {
                    self.amplitude += ATTACK_RATE;
                }
            },
            EnvelopeState::Release => {
                if self.amplitude <= RELEASE_RATE {
                    self.amplitude = 0;
                    self.state = EnvelopeState::Dead;
                } else {
                    self.amplitude -= RELEASE_RATE;
                }
            },
            EnvelopeState::Dead => {},
        }
    }

    /// Replaces the waveform shape. Level, phase of the envelope and sample
    /// counter stay as they are.
    pub fn set_oscillator(&mut self, oscillator: &Oscillator)
        ensures
            final(self)@ == old(self)@.with_oscillator(*oscillator),
    {
        proof {
            use_type_invariant(&*self);
        }
        self.osc = *oscillator;
    }

    /// Pitch identity.
    pub fn note(&self) -> (note: usize)
        ensures
            note == self@.note,
    {
        self.note
    }

    /// Waveform shape.
    pub fn oscillator(&self) -> (osc: Oscillator)
        ensures
            osc == self@.osc,
    {
        self.osc
    }

    /// Envelope phase.
    pub fn state(&self) -> (state: EnvelopeState)
        ensures
            state == self@.state,
    {
        self.state
    }

    /// Envelope level, from 0 to `FULL_LEVEL`.
    pub fn amplitude(&self) -> (level: u32)
        ensures
            level == self@.level,
            level <= FULL_LEVEL,
    {
        proof {
            use_type_invariant(self);
        }
        self.amplitude
    }

    /// Number of the last sample produced.
    pub fn num_sample(&self) -> (count: usize)
        ensures
            count == self@.num_sample,
    {
        self.num_sample
    }

    /// Advances the voice by one sample and returns the new level.
    #[inline]
    pub fn next(&mut self) -> (level: u32)
        ensures
            final(self)@ == old(self)@.next(),
            level == final(self)@.level,
    {
        proof {
            use_type_invariant(&*self);
        }
        self.num_sample = self.num_sample.wrapping_add(1);
        self.apply_envelope();
        self.amplitude
    }
}

/// Most samples that a voice can sound after its key is released: a full
/// rise from silence, then a full fall.
pub const MAX_RELEASE_SAMPLES: u32 = 13782;

/// Samples that a rising envelope at `level` takes to arrive at full level.
pub open spec fn rise_samples(level: nat) -> nat {
    if level + ATTACK_RATE >= FULL_LEVEL {
        1
    } else {
        ((FULL_LEVEL - level + ATTACK_RATE - 1) / ATTACK_RATE as int) as nat
    }
}

/// Samples that a decaying envelope at `level` takes to arrive at the sustain level.
pub open spec fn decay_samples(level: nat) -> nat {
    if level <= SUSTAIN_LEVEL + DECAY_RATE {
        1
    } else {
        ((level - SUSTAIN_LEVEL + DECAY_RATE - 1) / DECAY_RATE as int) as nat
    }
}

/// Samples that a releasing envelope at `level` takes to die.
pub open spec fn fall_samples(level: nat) -> nat {
    if level <= RELEASE_RATE {
        1
    } else {
        ((level + RELEASE_RATE - 1) / RELEASE_RATE as int) as nat
    }
}

/// Samples after which a voice whose key was just released is dead.
pub open spec fn samples_until_dead(released: Voice) -> nat {
    if released.state == EnvelopeState::ToBeReleased {
        rise_samples(released.level) + fall_samples(FULL_LEVEL as nat)
    } else {
        fall_samples(released.level)
    }
}

/// A sample count `n` further on, wrapping once past `usize::MAX`.
pub open spec fn counted_on(count: nat, n: nat) -> nat {
    if count + n > usize::MAX {
        (count + n - usize::MAX - 1) as nat
    } else {
        count + n
    }
}

/// The counter of a voice goes up by one with every sample and starts again
/// from 0 after `usize::MAX`.
pub proof fn lemma_counter(v: Voice, n: nat)
    requires
        v.num_sample <= usize::MAX,
        n <= usize::MAX + 1,
    ensures
        v.after(n).num_sample == counted_on(v.num_sample, n),
    decreases n,
{
    if n > 0 {
        lemma_counter(v, (n - 1) as nat);
        assert(v.after(n) == v.after((n - 1) as nat).next());
    }
}

/// Advancing by `a` samples and then by `b` is advancing by `a + b`.
pub proof fn lemma_after_add(v: Voice, a: nat, b: nat)
    ensures
        v.after(a).after(b) == v.after(a + b),
    decreases b,
{
    if b > 0 {
        lemma_after_add(v, a, (b - 1) as nat);
    }
}

/// The level stays between silence and full scale, and a dead voice stays
/// silent, however many samples pass.
pub proof fn lemma_after_wf(v: Voice, n: nat)
    requires
        v.wf(),
    ensures
        v.after(n).wf(),
        v.after(n).note == v.note,
        v.after(n).osc == v.osc,
    decreases n,
{
    if n > 0 {
        lemma_after_wf(v, (n - 1) as nat);
    }
}

/// Until the first change of state an attacking envelope never falls: of two
/// samples, the later is at least as loud, as long as the envelope was still
/// attacking before the later one.
pub proof fn lemma_attack_never_falls(v: Voice, i: nat, j: nat)
    requires
        v.wf(),
        v.state == EnvelopeState::Attack,
        i <= j,
        j == 0 || v.after((j - 1) as nat).state == EnvelopeState::Attack,
    ensures
        v.after(i).level <= v.after(j).level,
        v.after(j).level <= FULL_LEVEL,
        v.after(j).state == EnvelopeState::Attack || (v.after(j).state == EnvelopeState::Decay
            && v.after(j).level == FULL_LEVEL),
    decreases j,
{
    lemma_after_wf(v, j);
    if j > 0 {
        let before = v.after((j - 1) as nat);
        lemma_after_wf(v, (j - 1) as nat);
        assert(v.after(j) == before.next());
        if i < j {
            if j >= 2 {
                assert(before == v.after((j - 2) as nat).next());
            }
            lemma_attack_never_falls(v, i, (j - 1) as nat);
        }
    }
}

/// Releasing the key of an attacking voice causes no drop: the level stays
/// where it is at the release and then never falls until it has reached full
/// level, where the release proper begins.
pub proof fn lemma_release_in_attack_never_falls(v: Voice, i: nat, j: nat)
    requires
        v.wf(),
        v.state == EnvelopeState::Attack,
        i <= j,
        j == 0 || v.released().after((j - 1) as nat).state == EnvelopeState::ToBeReleased,
    ensures
        v.released().level == v.level,
        v.released().after(i).level <= v.released().after(j).level,
        v.released().after(j).state == EnvelopeState::ToBeReleased || (v.released().after(
            j,
        ).state == EnvelopeState::Release && v.released().after(j).level == FULL_LEVEL),
    decreases j,
{
    let r = v.released();
    lemma_after_wf(r, j);
    if j > 0 {
        let before = r.after((j - 1) as nat);
        lemma_after_wf(r, (j - 1) as nat);
        assert(r.after(j) == before.next());
        if i < j {
            if j >= 2 {
                assert(before == r.after((j - 2) as nat).next());
            }
            lemma_release_in_attack_never_falls(v, i, (j - 1) as nat);
        }
    }
}

/// A rising envelope climbs by `ATTACK_RATE` per sample and arrives at full
/// level after exactly `rise_samples` samples, where it turns to its next phase.
pub proof fn lemma_rise(v: Voice, n: nat)
    requires
        v.wf(),
        v.state == EnvelopeState::Attack || v.state == EnvelopeState::ToBeReleased,
        n <= rise_samples(v.level),
    ensures
        n < rise_samples(v.level) ==> v.after(n).state == v.state && v.after(n).level == v.level
            + ATTACK_RATE * n,
        n == rise_samples(v.level) ==> v.after(n).level == FULL_LEVEL && v.after(n).state == (
        if v.state == EnvelopeState::Attack {
            EnvelopeState::Decay
        } else {
            EnvelopeState::Release
        }),
    decreases n,
{
    if n > 0 {
        lemma_rise(v, (n - 1) as nat);
        assert(v.after(n) == v.after((n - 1) as nat).next());
    }
}

/// A decaying envelope falls by `DECAY_RATE` per sample and arrives at the
/// sustain level after exactly `decay_samples` samples, where it comes to rest.
pub proof fn lemma_decay(v: Voice, n: nat)
    requires
        v.wf(),
        v.state == EnvelopeState::Decay,
        n <= decay_samples(v.level),
    ensures
        n < decay_samples(v.level) ==> v.after(n).state == EnvelopeState::Decay && v.after(
            n,
        ).level == v.level - DECAY_RATE * n,
        n == decay_samples(v.level) ==> v.after(n).state == EnvelopeState::Sustain && v.after(
            n,
        ).level == SUSTAIN_LEVEL,
    decreases n,
{
    if n > 0 {
        lemma_decay(v, (n - 1) as nat);
        assert(v.after(n) == v.after((n - 1) as nat).next());
    }
}

/// A sustained envelope rests where it is, however many samples pass.
pub proof fn lemma_sustain(v: Voice, n: nat)
    requires
        v.state == EnvelopeState::Sustain,
    ensures
        v.after(n).state == EnvelopeState::Sustain,
        v.after(n).level == v.level,
    decreases n,
{
    if n > 0 {
        lemma_sustain(v, (n - 1) as nat);
    }
}

/// A releasing envelope falls by `RELEASE_RATE` per sample and dies after
/// exactly `fall_samples` samples.
pub proof fn lemma_fall(v: Voice, n: nat)
    requires
        v.wf(),
        v.state == EnvelopeState::Release,
        n <= fall_samples(v.level),
    ensures
        n < fall_samples(v.level) ==> v.after(n).state == EnvelopeState::Release && v.after(
            n,
        ).level == v.level - RELEASE_RATE * n,
        n == fall_samples(v.level) ==> v.after(n).state == EnvelopeState::Dead && v.after(n).level
            == 0,
    decreases n,
{
    if n > 0 {
        lemma_fall(v, (n - 1) as nat);
        assert(v.after(n) == v.after((n - 1) as nat).next());
    }
}

/// After its key is released a voice is dead within `samples_until_dead`
/// samples, which are at most `MAX_RELEASE_SAMPLES`.
pub proof fn lemma_released_voice_dies(v: Voice)
    requires
        v.wf(),
    ensures
        !v.released().after(samples_until_dead(v.released())).alive(),
        samples_until_dead(v.released()) <= MAX_RELEASE_SAMPLES,
{
    let r = v.released();
    if r.state == EnvelopeState::ToBeReleased {
        let up = rise_samples(r.level);
        let down = fall_samples(FULL_LEVEL as nat);
        lemma_rise(r, up);
        lemma_after_wf(r, up);
        lemma_fall(r.after(up), down);
        lemma_after_add(r, up, down);
    } else {
        lemma_fall(r, fall_samples(r.level));
    }
}

/// A dead voice stays dead, however many samples pass.
pub proof fn lemma_dead_stays_dead(v: Voice, n: nat)
    requires
        !v.alive(),
    ensures
        !v.after(n).alive(),
        v.after(n).level == v.level,
    decreases n,
{
    if n > 0 {
        lemma_dead_stays_dead(v, (n - 1) as nat);
    }
}

} // verus!
