//! The engine: a private copy of the grid, a step clock driven by the tempo,
//! one voice per sounding pitch, and the recorder.
//!
//! The engine does no input or output. Its owner hands it the commands that
//! arrive and the depth of the output queue, and receives what to play and
//! what to write down.

use vstd::prelude::*;

use crate::instr::{
    cleared_grid, empty_grid, grid_of, grid_shaped, lemma_grid_update, Cells, Note, LOWEST_PITCH,
    MEAS_COUNT, NOTE_COUNT,
};
use crate::mixer::{as_ints, buffers, lemma_mix_bounded, mix, mixed, sample_at};
use crate::sequencer::{
    all_entries, cell_valid, changed_cells, changed_upto, covers, entry_at, is_marked,
    lemma_changed_step, row_valid, Messages,
};
use crate::synth::{
    as_levels, counted_on, lemma_after_wf, lemma_counter, MidiNote, Oscillator, Voice, FULL_LEVEL,
};

verus! {

/// Samples in one step at a tempo of 1: an eighth of a minute at the sample rate.
pub const STEP_SAMPLES_AT_TEMPO_ONE: u64 = 330750;

/// Deepest output queue at which the engine still produces a buffer.
pub const MAX_PENDING_BUFFERS: usize = 2;

/// Samples in one step at `tempo`: `STEP_SAMPLES_AT_TEMPO_ONE / tempo`, rounded
/// to the nearest whole number, halves upwards.
pub open spec fn samples_per_step(tempo: nat) -> nat {
    ((2 * STEP_SAMPLES_AT_TEMPO_ONE + tempo) / (2 * tempo) as int) as nat
}

/// `samples_per_step` is the whole number nearest to the exact quotient: it
/// differs from it by at most one half.
pub proof fn lemma_samples_per_step_nearest(tempo: nat)
    requires
        tempo >= 1,
    ensures
        2 * samples_per_step(tempo) * tempo - tempo <= 2 * STEP_SAMPLES_AT_TEMPO_ONE,
        2 * STEP_SAMPLES_AT_TEMPO_ONE < 2 * samples_per_step(tempo) * tempo + tempo,
        samples_per_step(tempo) <= STEP_SAMPLES_AT_TEMPO_ONE,
{
    let a = 2 * STEP_SAMPLES_AT_TEMPO_ONE + tempo;
    let b = (2 * tempo) as int;
    let q = a / b;
    assert(a == b * q + a % b && 0 <= a % b < b) by (nonlinear_arith)
        requires
            b > 0,
            q == a / b,
    ;
    assert(b * q == 2 * q * tempo) by (nonlinear_arith)
        requires
            b == 2 * tempo,
    ;
    assert(q <= STEP_SAMPLES_AT_TEMPO_ONE) by (nonlinear_arith)
        requires
            2 * q * tempo <= 2 * STEP_SAMPLES_AT_TEMPO_ONE + tempo,
            tempo >= 1,
            q >= 0,
    ;
}

/// Length in samples of the buffer of one step at `tempo`.
pub fn buffer_len(tempo: u32) -> (len: usize)
    requires
        tempo >= 1,
    ensures
        len == samples_per_step(tempo as nat),
{
    proof {
        lemma_samples_per_step_nearest(tempo as nat);
    }
    let tempo = tempo as u64;
    ((2 * STEP_SAMPLES_AT_TEMPO_ONE + tempo) / (2 * tempo)) as usize
}

/// A sample of a waveform at the loudness of an envelope level: the product
/// of the two over `FULL_LEVEL`, rounded towards silence.
pub open spec fn scaled(level: nat, wave: int) -> int {
    let product = level * wave;
    if product >= 0 {
        product / FULL_LEVEL as int
    } else {
        -((-product) / FULL_LEVEL as int)
    }
}

/// An envelope never amplifies: at a level up to `FULL_LEVEL` the scaled
/// sample has the sign of the waveform's and is no louder. At full level it
/// is the waveform's sample, at level 0 it is silence.
pub proof fn lemma_scaled_bounded(level: nat, wave: int)
    requires
        level <= FULL_LEVEL,
    ensures
        wave >= 0 ==> 0 <= scaled(level, wave) <= wave,
        wave <= 0 ==> wave <= scaled(level, wave) <= 0,
        scaled(FULL_LEVEL as nat, wave) == wave,
        scaled(0, wave) == 0,
{
    let full = FULL_LEVEL as int;
    if wave >= 0 {
        assert(0 <= level * wave <= full * wave) by (nonlinear_arith)
            requires
                0 <= level <= full,
                wave >= 0,
        ;
        assert(0 <= (level * wave) / full <= wave) by (nonlinear_arith)
            requires
                0 <= level * wave <= full * wave,
                full > 0,
        ;
        assert((full * wave) / full == wave) by (nonlinear_arith)
            requires
                full > 0,
        ;
    } else {
        assert(0 <= -(level * wave) <= full * (-wave)) by (nonlinear_arith)
            requires
                0 <= level <= full,
                wave < 0,
        ;
        assert(0 <= (-(level * wave)) / full <= -wave) by (nonlinear_arith)
            requires
                0 <= -(level * wave) <= full * (-wave),
                full > 0,
        ;
        assert((-(full * wave)) / full == -wave) by (nonlinear_arith)
            requires
                full > 0,
        ;
        assert(full * wave < 0) by (nonlinear_arith)
            requires
                full > 0,
                wave < 0,
        ;
    }
    assert(0 * wave == 0);
}

/// What a [`VoiceBlock`] holds, as mathematics.
pub struct Block {
    /// Pitch identity of the voice.
    pub note: nat,
    /// Waveform shape of the voice.
    pub osc: Oscillator,
    /// Number of the first sample of the block in the voice's own count.
    pub first_sample: nat,
    /// Envelope level of each sample of the block.
    pub levels: Seq<nat>,
}

impl Block {
    /// The block that a voice yields over its next `len` samples.
    pub open spec fn of(voice: Voice, len: nat) -> Block {
        Block {
            note: voice.note,
            osc: voice.osc,
            first_sample: voice.next().num_sample,
            levels: voice.levels(len),
        }
    }

    /// No level is above `FULL_LEVEL`.
    pub open spec fn wf(self) -> bool {
        forall|i: int| 0 <= i < self.levels.len() ==> #[trigger] self.levels[i] <= FULL_LEVEL
    }

    /// Number of sample `i` of the block in the voice's own count.
    pub open spec fn sample_number(self, i: nat) -> nat {
        counted_on(self.first_sample, i)
    }

    /// The samples of the block for the waveform samples `wave`, which are
    /// silent past their end.
    pub open spec fn shaped(self, wave: Seq<int>) -> Seq<int> {
        Seq::new(self.levels.len(), |i: int| scaled(self.levels[i], sample_at(wave, i)))
    }
}

/// The envelope of one voice over one step, with what its owner needs to
/// evaluate the waveform: pitch, shape and the number of the first sample.
#[derive(Debug)]
pub struct VoiceBlock {
    note: usize,
    osc: Oscillator,
    first_sample: usize,
    levels: Vec<u32>,
}

impl View for VoiceBlock {
    type V = Block;

    closed spec fn view(&self) -> Block {
        Block {
            note: self.note as nat,
            osc: self.osc,
            first_sample: self.first_sample as nat,
            levels: as_levels(self.levels@),
        }
    }
}

impl VoiceBlock {
    /// No level of a block in hand is above `FULL_LEVEL`.
    #[verifier::type_invariant]
    pub open spec fn wf(&self) -> bool {
        self@.wf()
    }

    /// Pitch identity of the voice.
    pub fn note(&self) -> (note: usize)
        ensures
            note == self@.note,
    {
        self.note
    }

    /// Waveform shape of the voice.
    pub fn oscillator(&self) -> (osc: Oscillator)
        ensures
            osc == self@.osc,
    {
        self.osc
    }

    /// Number of the first sample of the block in the voice's own count.
    pub fn first_sample(&self) -> (first: usize)
        ensures
            first == self@.first_sample,
    {
        self.first_sample
    }

    /// Number of sample `i` of the block in the voice's own count, which
    /// starts again from 0 after `usize::MAX`.
    pub fn sample_number(&self, i: usize) -> (number: usize)
        ensures
            number == self@.sample_number(i as nat),
    {
        self.first_sample.wrapping_add(i)
    }

    /// Envelope level of each sample of the block.
    pub fn levels(&self) -> (levels: &Vec<u32>)
        ensures
            as_levels(levels@) == self@.levels,
    {
        &self.levels
    }

    /// Applies the envelope to the waveform: sample `i` of the result is
    /// sample `i` of `wave` at the loudness of level `i`.
    pub fn shape(&self, wave: &Vec<i32>) -> (samples: Vec<i32>)
        ensures
            as_ints(samples@) == self@.shaped(as_ints(wave@)),
    {
        proof {
            use_type_invariant(self);
        }
        let mut samples: Vec<i32> = Vec::new();
        let mut i: usize = 0;
        while i < self.levels.len()
            invariant
                i <= self.levels@.len(),
                self.wf(),
                samples@.len() == i,
                forall|k: int|
                    0 <= k < i ==> samples@[k] as int == scaled(
                        self@.levels[k],
                        sample_at(as_ints(wave@), k),
                    ),
            decreases self.levels@.len() - i,
        {
            let level = self.levels[i];
            let value: i32 = if i < wave.len() {
                wave[i]
            } else {
                0
            };
            proof {
                assert(self@.levels[i as int] == level);
                lemma_scaled_bounded(level as nat, value as int);
                assert(-0x8000_0000_0000 <= level * value <= 0x8000_0000_0000) by (nonlinear_arith)
                    requires
                        0 <= level <= 44100,
                        -0x8000_0000 <= value <= 0x8000_0000,
                ;
            }
            let product: i64 = (level as i64) * (value as i64);
            let sample: i64 = if product >= 0 {
                product / (FULL_LEVEL as i64)
            } else {
                -((-product) / (FULL_LEVEL as i64))
            };
            samples.push(sample as i32);
            i += 1;
        }
        assert(as_ints(samples@) =~= self@.shaped(as_ints(wave@)));
        samples
    }
}

/// The samples of a block are numbered as the voice counts them: sample `i`
/// of the block that a voice yields is its sample `i + 1` from where it stands.
pub proof fn lemma_block_sample_number(voice: Voice, len: nat, i: nat)
    requires
        voice.num_sample <= usize::MAX,
        i <= usize::MAX,
    ensures
        Block::of(voice, len).sample_number(i) == voice.after(i + 1).num_sample,
{
    lemma_counter(voice, 1);
    lemma_counter(voice, i + 1);
    assert(voice.after(1) == voice.after(0).next());
}

/// What a [`Step`] holds, as mathematics.
pub struct StepView {
    /// Length of the buffer of the step, in samples.
    pub len: nat,
    /// The blocks of the voices that sound in the step, lowest pitch first.
    pub blocks: Seq<Block>,
}

impl StepView {
    /// Waveform `j` of `waves`; silence where there are fewer.
    pub open spec fn wave_at(waves: Seq<Seq<int>>, j: int) -> Seq<int> {
        if 0 <= j < waves.len() {
            waves[j]
        } else {
            Seq::empty()
        }
    }

    /// The samples of every voice of the step, where `waves` holds the
    /// waveform of each in the order of the blocks.
    pub open spec fn shaped(self, waves: Seq<Seq<int>>) -> Seq<Seq<int>> {
        Seq::new(self.blocks.len(), |j: int| self.blocks[j].shaped(Self::wave_at(waves, j)))
    }

    /// The buffer of the step: the mix of the samples of its voices.
    pub open spec fn mixed(self, waves: Seq<Seq<int>>) -> Seq<int> {
        mixed(self.shaped(waves), self.len)
    }
}

/// A step is no louder than the waveforms of its voices: where every sample
/// of every waveform lies within `peak` of silence, so does every sample of
/// the buffer, however many voices sound and at whatever level.
pub proof fn lemma_step_bounded(step: StepView, waves: Seq<Seq<int>>, peak: nat)
    requires
        forall|j: int| 0 <= j < step.blocks.len() ==> (#[trigger] step.blocks[j]).wf(),
        forall|j: int, i: int|
            0 <= j < waves.len() && 0 <= i < waves[j].len() ==> -peak <= #[trigger] waves[j][i]
                <= peak,
    ensures
        forall|i: int| 0 <= i < step.len ==> -peak <= #[trigger] step.mixed(waves)[i] <= peak,
{
    let voices = step.shaped(waves);
    assert forall|v: int, k: int| 0 <= v < voices.len() && 0 <= k < voices[v].len() implies -peak
        <= #[trigger] voices[v][k] <= peak by {
        let block = step.blocks[v];
        let wave = StepView::wave_at(waves, v);
        assert(block.wf());
        assert(block.levels[k] <= FULL_LEVEL);
        assert(-peak <= sample_at(wave, k) <= peak) by {
            if 0 <= v < waves.len() && 0 <= k < wave.len() {
                assert(wave[k] == waves[v][k]);
            }
        }
        lemma_scaled_bounded(block.levels[k], sample_at(wave, k));
    }
    lemma_mix_bounded(voices, step.len, peak);
}

/// One step of the engine as it is due: the length of its buffer and the
/// envelope of every voice that sounds in it.
#[derive(Debug)]
pub struct Step {
    len: usize,
    blocks: Vec<VoiceBlock>,
}

impl View for Step {
    type V = StepView;

    closed spec fn view(&self) -> StepView {
        StepView { len: self.len as nat, blocks: block_views(self.blocks@) }
    }
}

impl Step {
    /// Length of the buffer of the step, in samples.
    pub fn len(&self) -> (len: usize)
        ensures
            len == self@.len,
    {
        self.len
    }

    /// The blocks of the voices that sound in the step, lowest pitch first.
    pub fn blocks(&self) -> (blocks: &Vec<VoiceBlock>)
        ensures
            block_views(blocks@) == self@.blocks,
    {
        &self.blocks
    }
}

/// What the owner of the engine has to do after a command.
#[derive(Debug)]
pub enum Effect {
    /// Nothing.
    Idle,
    /// Let the output play.
    Resume,
    /// Write these samples down as one recording; the engine has let go of them.
    Export(Vec<i32>),
}

/// `cells` with one entry of a play command laid over it. An entry that names
/// a row or a step outside the grid changes nothing.
pub open spec fn placed(cells: Cells, entry: (Note, usize, usize)) -> Cells {
    let (note, row, step) = entry;
    if row < NOTE_COUNT && step < MEAS_COUNT {
        cells.update(row as int, cells[row as int].update(step as int, note))
    } else {
        cells
    }
}

/// `cells` with the entries of a play command laid over it, one after the
/// other: of two entries for one cell the later stays.
pub open spec fn overlaid(cells: Cells, changed: Seq<(Note, usize, usize)>) -> Cells
    decreases changed.len(),
{
    if changed.len() == 0 {
        cells
    } else {
        placed(overlaid(cells, changed.drop_last()), changed.last())
    }
}

/// `cells` with everything emptied from place `upto` on, the grid read row
/// after row.
pub open spec fn grid_upto(cells: Cells, upto: int) -> Cells {
    Seq::new(
        NOTE_COUNT as nat,
        |row: int|
            Seq::new(
                MEAS_COUNT as nat,
                |step: int|
                    if row * MEAS_COUNT + step < upto {
                        cells[row][step]
                    } else {
                        Note::empty()
                    },
            ),
    )
}

/// Laid over an empty grid, the cells of a grid that hold anything give that
/// grid again: an engine that was stopped and is started on the command that
/// the sequencer sends plays the sequencer's grid.
pub proof fn lemma_changed_cells_rebuild(cells: Cells)
    requires
        grid_shaped(cells),
    ensures
        overlaid(empty_grid(), changed_cells(cells)) == cells,
{
    lemma_changed_upto_rebuild(cells, NOTE_COUNT * MEAS_COUNT);
    assert(grid_upto(cells, NOTE_COUNT * MEAS_COUNT) =~~= cells);
}

/// The first `upto` places of a grid come back from the cells among them that
/// hold anything.
proof fn lemma_changed_upto_rebuild(cells: Cells, upto: int)
    requires
        grid_shaped(cells),
        0 <= upto <= NOTE_COUNT * MEAS_COUNT,
    ensures
        overlaid(empty_grid(), changed_upto(cells, upto)) == grid_upto(cells, upto),
    decreases upto,
{
    if upto == 0 {
        assert(all_entries(cells).take(0) =~= Seq::empty());
        assert(grid_upto(cells, 0) =~~= empty_grid());
    } else {
        let k = upto - 1;
        lemma_changed_upto_rebuild(cells, k);
        lemma_changed_step(cells, k);
        let entry = entry_at(cells, k);
        let row = k / MEAS_COUNT as int;
        let step = k % MEAS_COUNT as int;
        let before = changed_upto(cells, k);
        if is_marked(entry) {
            let now = before.push(entry);
            assert(now.drop_last() =~= before);
            assert(now.last() == entry);
            assert(overlaid(empty_grid(), now) == placed(grid_upto(cells, k), entry));
            let a = placed(grid_upto(cells, k), entry);
            let b = grid_upto(cells, upto);
            assert forall|r: int| 0 <= r < NOTE_COUNT implies #[trigger] a[r] =~= b[r] by {
                assert forall|c: int| 0 <= c < MEAS_COUNT implies #[trigger] a[r][c]
                    == b[r][c] by {
                    assert(r * MEAS_COUNT + c == k <==> r == row && c == step);
                }
            }
            assert(a =~= b);
        } else {
            let a = grid_upto(cells, k);
            let b = grid_upto(cells, upto);
            assert forall|r: int| 0 <= r < NOTE_COUNT implies #[trigger] a[r] =~= b[r] by {
                assert forall|c: int| 0 <= c < MEAS_COUNT implies #[trigger] a[r][c]
                    == b[r][c] by {
                    assert(r * MEAS_COUNT + c == k <==> r == row && c == step);
                }
            }
            assert(a =~= b);
        }
    }
}

/// Whether a span starts in `row` at step `clock`.
pub open spec fn starts_here(row: Seq<Note>, clock: int) -> bool {
    row[clock].duration != 0
}

/// Whether step `clock` is the last step of the span that covers it in `row`.
/// A cell that names a first step outside the grid ends nothing.
pub open spec fn ends_here(row: Seq<Note>, clock: int) -> bool {
    match row[clock].starts_at {
        Some(start) => start < MEAS_COUNT && start + row[start as int].duration - 1 == clock,
        None => false,
    }
}

/// Over the steps of a span the scheduler acts twice: the span starts at its
/// first step and ends at its last, and at the steps between nothing does.
pub proof fn lemma_span_starts_and_ends(row: Seq<Note>, first: int, len: int, clock: int)
    requires
        row.len() == MEAS_COUNT,
        covers(row, first, len),
        first <= clock < first + len,
    ensures
        starts_here(row, clock) <==> clock == first,
        ends_here(row, clock) <==> clock == first + len - 1,
{
    if clock != first {
        assert(row[clock] == Note { duration: 0, starts_at: Some(first as usize) });
    }
}

/// In a row of well-formed spans the scheduler acts at the ends of spans and
/// nowhere else: a span starts only at its first step, never in the middle
/// of a held note, and ends only at its last.
pub proof fn lemma_valid_row_is_scheduled_by_spans(row: Seq<Note>, clock: int)
    requires
        row.len() == MEAS_COUNT,
        row_valid(row),
        0 <= clock < MEAS_COUNT,
    ensures
        starts_here(row, clock) <==> row[clock].starts_at == Some(clock as usize),
        ends_here(row, clock) <==> (row[clock].starts_at matches Some(start) && start
            + row[start as int].duration - 1 == clock),
        row[clock].starts_at.is_none() ==> !starts_here(row, clock) && !ends_here(row, clock),
{
    assert(cell_valid(row, clock));
    if let Some(start) = row[clock].starts_at {
        assert(cell_valid(row, start as int));
    }
}

/// A span sounds from its first step to its last: a pitch without a voice is
/// given one at the first step of a span, the voice is left alone at the
/// steps between, and it is released at the last step, which for a span of
/// one step is the first.
pub proof fn lemma_span_is_played(
    row: Seq<Note>,
    first: int,
    len: int,
    clock: int,
    voice: Option<Voice>,
    pitch: nat,
    osc: Oscillator,
)
    requires
        row.len() == MEAS_COUNT,
        covers(row, first, len),
        first <= clock < first + len,
    ensures
        scheduled_voice(row, clock, voice, pitch, osc) == {
            let started = if clock == first {
                Some(
                    match voice {
                        Some(v) => v.pressed(),
                        None => Voice::fresh(pitch, osc),
                    },
                )
            } else {
                voice
            };
            if clock == first + len - 1 {
                match started {
                    Some(v) => Some(v.released()),
                    None => None,
                }
            } else {
                started
            }
        },
{
    lemma_span_starts_and_ends(row, first, len, clock);
}

/// The voice of one pitch after the scheduler has looked at its row: where a
/// span starts, the voice is pressed, or made if there is none; where a span
/// ends, the voice, if there is one, is released.
pub open spec fn scheduled_voice(
    row: Seq<Note>,
    clock: int,
    voice: Option<Voice>,
    pitch: nat,
    osc: Oscillator,
) -> Option<Voice> {
    let started = if starts_here(row, clock) {
        Some(
            match voice {
                Some(v) => v.pressed(),
                None => Voice::fresh(pitch, osc),
            },
        )
    } else {
        voice
    };
    if ends_here(row, clock) {
        match started {
            Some(v) => Some(v.released()),
            None => None,
        }
    } else {
        started
    }
}

/// The voice of one pitch after a step of `len` samples: advanced, and gone
/// once its envelope is at its end.
pub open spec fn rendered_voice(voice: Option<Voice>, len: nat) -> Option<Voice> {
    match voice {
        Some(v) => if v.alive() && v.after(len).alive() {
            Some(v.after(len))
        } else {
            None
        },
        None => None,
    }
}

/// The blocks of the live voices among the first `rows` pitches, lowest first.
pub open spec fn blocks_upto(voices: Seq<Option<Voice>>, len: nat, rows: nat) -> Seq<Block>
    decreases rows,
{
    if rows == 0 {
        Seq::empty()
    } else {
        let below = blocks_upto(voices, len, (rows - 1) as nat);
        match voices[rows - 1] {
            Some(v) => if v.alive() {
                below.push(Block::of(v, len))
            } else {
                below
            },
            None => below,
        }
    }
}

/// The views of a sequence of blocks.
pub open spec fn block_views(blocks: Seq<VoiceBlock>) -> Seq<Block> {
    Seq::new(blocks.len(), |i: int| blocks[i]@)
}

/// The state of an [`Engine`], as mathematics.
pub struct EngineState {
    /// The engine's copy of the grid.
    pub cells: Cells,
    /// The step that is played next.
    pub clock: nat,
    /// Beats per minute.
    pub tempo: nat,
    /// Whether the engine produces sound.
    pub active: bool,
    /// Whether the engine keeps what it produces.
    pub recording: bool,
    /// What has been kept since the last export.
    pub recorded: Seq<i32>,
    /// Waveform shape of the voices, present and to come.
    pub osc: Oscillator,
    /// The voice of each pitch row, if it sounds.
    pub voices: Seq<Option<Voice>>,
}

impl EngineState {
    /// The grid and the voice table have their shape, the clock points into
    /// the grid, and every voice is alive, well formed and at the pitch of its row.
    pub open spec fn wf(self) -> bool {
        &&& grid_shaped(self.cells)
        &&& self.clock < MEAS_COUNT
        &&& self.tempo <= u32::MAX
        &&& self.voices.len() == NOTE_COUNT
        &&& forall|row: int|
            0 <= row < NOTE_COUNT ==> (#[trigger] self.voices[row] matches Some(v) ==> v.wf()
                && v.alive() && v.note == row + LOWEST_PITCH)
    }

    /// The state of a new engine: stopped, at step 0 and tempo 60, with an
    /// empty grid, no voice and nothing recorded.
    pub open spec fn initial() -> EngineState {
        EngineState {
            cells: empty_grid(),
            clock: 0,
            tempo: 60,
            active: false,
            recording: false,
            recorded: Seq::empty(),
            osc: Oscillator::Sin,
            voices: Seq::new(NOTE_COUNT as nat, |row: int| None),
        }
    }

    /// The state after a command.
    pub open spec fn handled(self, msg: Messages) -> EngineState {
        match msg {
            Messages::Play(changed) => EngineState {
                cells: overlaid(self.cells, changed@),
                active: true,
                ..self
            },
            Messages::Stop => EngineState {
                active: false,
                recorded: if self.recording {
                    Seq::empty()
                } else {
                    self.recorded
                },
                cells: empty_grid(),
                clock: 0,
                ..self
            },
            Messages::Record => EngineState { recording: true, ..self },
            Messages::Tempo(bpm) => EngineState { tempo: bpm as nat, ..self },
            Messages::Oscillator(kind) => EngineState {
                osc: kind,
                voices: Seq::new(
                    self.voices.len(),
                    |row: int|
                        match self.voices[row] {
                            Some(v) => Some(v.with_oscillator(kind)),
                            None => None,
                        },
                ),
                ..self
            },
        }
    }

    /// Whether the engine produces a buffer while `pending` buffers wait in
    /// the output queue.
    pub open spec fn ready(self, pending: nat) -> bool {
        self.active && pending <= MAX_PENDING_BUFFERS
    }

    /// Length in samples of the buffer of the present step.
    pub open spec fn step_len(self) -> nat {
        samples_per_step(self.tempo)
    }

    /// The state after the scheduler has run for the present step.
    pub open spec fn scheduled(self) -> EngineState {
        EngineState {
            voices: Seq::new(
                NOTE_COUNT as nat,
                |row: int|
                    scheduled_voice(
                        self.cells[row],
                        self.clock as int,
                        self.voices[row],
                        (row + LOWEST_PITCH) as nat,
                        self.osc,
                    ),
            ),
            ..self
        }
    }

    /// The present step: its length and the blocks that the live voices
    /// yield over it, lowest pitch first.
    pub open spec fn step(self) -> StepView {
        StepView {
            len: self.step_len(),
            blocks: blocks_upto(self.voices, self.step_len(), NOTE_COUNT as nat),
        }
    }

    /// The state after every voice has sounded for the present step.
    pub open spec fn rendered(self) -> EngineState {
        EngineState {
            voices: Seq::new(
                NOTE_COUNT as nat,
                |row: int| rendered_voice(self.voices[row], self.step_len()),
            ),
            ..self
        }
    }

    /// The state after the buffer `data` of the present step has gone out:
    /// kept if the engine records, and the clock one step on, round the grid.
    pub open spec fn emitted(self, data: Seq<i32>) -> EngineState {
        EngineState {
            recorded: if self.recording {
                self.recorded + data
            } else {
                self.recorded
            },
            clock: if self.clock + 1 >= MEAS_COUNT {
                0
            } else {
                self.clock + 1
            },
            ..self
        }
    }
}

/// A state stays well formed when a row of its voice table is emptied, or
/// filled with a live, well-formed voice of the pitch of that row.
proof fn lemma_put_keeps_wf(state: EngineState, row: int, voice: Option<Voice>)
    requires
        state.wf(),
        0 <= row < NOTE_COUNT,
        voice matches Some(v) ==> v.wf() && v.alive() && v.note == row + LOWEST_PITCH,
    ensures
        (EngineState { voices: state.voices.update(row, voice), ..state }).wf(),
{
    let after = state.voices.update(row, voice);
    assert forall|x: int| 0 <= x < NOTE_COUNT implies (#[trigger] after[x] matches Some(v)
        ==> v.wf() && v.alive() && v.note == x + LOWEST_PITCH) by {
        if x != row {
            assert(after[x] == state.voices[x]);
        }
    }
}

/// The views of the voices of a table.
pub open spec fn voice_views(voices: Seq<Option<MidiNote>>) -> Seq<Option<Voice>> {
    Seq::new(
        voices.len(),
        |row: int|
            match voices[row] {
                Some(v) => Some(v@),
                None => None,
            },
    )
}

/// The audio engine.
///
/// The voices stand in a table with one place for each pitch row, so that a
/// pitch has one voice at most and the voices are met lowest pitch first.
#[derive(Debug)]
pub struct Engine {
    grid: Vec<Note>,
    clock: usize,
    tempo: u32,
    active: bool,
    recording: bool,
    recorded: Vec<i32>,
    osc: Oscillator,
    voices: Vec<Option<MidiNote>>,
}

impl View for Engine {
    type V = EngineState;

    closed spec fn view(&self) -> EngineState {
        EngineState {
            cells: grid_of(self.grid@),
            clock: self.clock as nat,
            tempo: self.tempo as nat,
            active: self.active,
            recording: self.recording,
            recorded: self.recorded@,
            osc: self.osc,
            voices: voice_views(self.voices@),
        }
    }
}

impl Engine {
    /// The grid is held row after row in one vector.
    pub closed spec fn held(&self) -> bool {
        self.grid@.len() == NOTE_COUNT * MEAS_COUNT
    }

    /// Every engine in hand is well formed.
    #[verifier::type_invariant]
    pub open spec fn wf(&self) -> bool {
        self.held() && self@.wf()
    }

    /// A new engine: stopped, at step 0 and tempo 60, with an empty grid.
    pub fn new() -> (engine: Engine)
        ensures
            engine@ == EngineState::initial(),
    {
        let grid = cleared_grid();
        let mut voices: Vec<Option<MidiNote>> = Vec::new();
        let mut row: usize = 0;
        while row < NOTE_COUNT
            invariant
                row <= NOTE_COUNT,
                voices@.len() == row,
                forall|x: int| 0 <= x < row ==> voices@[x] is None,
            decreases NOTE_COUNT - row,
        {
            voices.push(None);
            row += 1;
        }
        assert(voice_views(voices@) =~= EngineState::initial().voices);
        Engine {
            grid,
            clock: 0,
            tempo: 60,
            active: false,
            recording: false,
            recorded: Vec::new(),
            osc: Oscillator::Sin,
            voices,
        }
    }

    /// The step that is played next.
    pub fn clock(&self) -> (clock: usize)
        ensures
            clock == self@.clock,
            clock < MEAS_COUNT,
    {
        proof {
            use_type_invariant(self);
        }
        self.clock
    }

    /// Beats per minute.
    pub fn tempo(&self) -> (tempo: u32)
        ensures
            tempo == self@.tempo,
    {
        self.tempo
    }

    /// Whether the engine produces sound.
    pub fn is_active(&self) -> (active: bool)
        ensures
            active == self@.active,
    {
        self.active
    }

    /// Whether the engine keeps what it produces.
    pub fn is_recording(&self) -> (recording: bool)
        ensures
            recording == self@.recording,
    {
        self.recording
    }

    /// Waveform shape of the voices, present and to come.
    pub fn oscillator(&self) -> (osc: Oscillator)
        ensures
            osc == self@.osc,
    {
        self.osc
    }

    /// Number of samples kept since the last export.
    pub fn recorded_len(&self) -> (len: usize)
        ensures
            len == self@.recorded.len(),
    {
        self.recorded.len()
    }

    /// The cell at `row`, `step` of the engine's copy of the grid.
    pub fn cell(&self, row: usize, step: usize) -> (note: Note)
        requires
            row < NOTE_COUNT,
            step < MEAS_COUNT,
        ensures
            note == self@.cells[row as int][step as int],
    {
        proof {
            use_type_invariant(self);
        }
        self.grid[row * MEAS_COUNT + step]
    }

    /// The voice of pitch row `row`, if it sounds.
    pub fn voice(&self, row: usize) -> (voice: Option<MidiNote>)
        requires
            row < NOTE_COUNT,
        ensures
            match voice {
                Some(v) => self@.voices[row as int] == Some(v@),
                None => self@.voices[row as int].is_none(),
            },
    {
        proof {
            use_type_invariant(self);
        }
        self.voices[row]
    }

    /// Applies one command and says what its owner has to do.
    ///
    /// A stop hands out the recording, if the engine records, and leaves the
    /// engine recording; the voices stay as they are.
    pub fn handle(&mut self, msg: Messages) -> (effect: Effect)
        ensures
            final(self)@ == old(self)@.handled(msg),
            match effect {
                Effect::Idle => !(msg is Play) && !(msg is Stop && old(self)@.recording),
                Effect::Resume => msg is Play,
                Effect::Export(data) => msg is Stop && old(self)@.recording && data@ == old(
                    self,
                )@.recorded,
            },
    {
        proof {
            use_type_invariant(&*self);
        }
        match msg {
            Messages::Play(changed) => {
                self.overlay(&changed);
                proof {
                    use_type_invariant(&*self);
                }
                self.active = true;
                Effect::Resume
            },
            Messages::Stop => {
                self.active = false;
                self.grid = cleared_grid();
                self.clock = 0;
                if self.recording {
                    let mut data: Vec<i32> = Vec::new();
                    core::mem::swap(&mut self.recorded, &mut data);
                    Effect::Export(data)
                } else {
                    Effect::Idle
                }
            },
            Messages::Record => {
                self.recording = true;
                Effect::Idle
            },
            Messages::Tempo(bpm) => {
                self.tempo = bpm;
                Effect::Idle
            },
            Messages::Oscillator(kind) => {
                self.osc = kind;
                let mut row: usize = 0;
                while row < NOTE_COUNT
                    invariant
                        row <= NOTE_COUNT,
                        self.wf(),
                        old(self).wf(),
                        self.grid == old(self).grid,
                        self.clock == old(self).clock,
                        self.tempo == old(self).tempo,
                        self.active == old(self).active,
                        self.recording == old(self).recording,
                        self.recorded == old(self).recorded,
                        self.osc == kind,
                        forall|x: int|
                            0 <= x < row ==> (#[trigger] self@.voices[x]) == (match old(
                                self,
                            )@.voices[x] {
                                Some(v) => Some(v.with_oscillator(kind)),
                                None => None,
                            }),
                        forall|x: int|
                            row <= x < NOTE_COUNT ==> (#[trigger] self@.voices[x]) == old(
                                self,
                            )@.voices[x],
                    decreases NOTE_COUNT - row,
                {
                    let slot = self.voices[row];
                    if let Some(mut voice) = slot {
                        proof {
                            use_type_invariant(&voice);
                            assert(self@.voices[row as int] == Some(voice@));
                        }
                        voice.set_oscillator(&kind);
                        proof {
                            use_type_invariant(&voice);
                            lemma_put_keeps_wf(self@, row as int, Some(voice@));
                            assert(voice_views(self.voices@.update(row as int, Some(voice)))
                                =~= self@.voices.update(row as int, Some(voice@)));
                        }
                        put(&mut self.voices, row, Some(voice));
                    }
                    row += 1;
                }
                assert(self@.voices =~= old(self)@.handled(msg).voices);
                Effect::Idle
            },
        }
    }

    /// Runs the scheduler for the present step: over every pitch row, a span
    /// that starts at this step presses the voice of the row, or makes it, and
    /// a span that ends at this step releases it.
    pub fn schedule(&mut self)
        ensures
            final(self)@ == old(self)@.scheduled(),
    {
        proof {
            use_type_invariant(&*self);
        }
        let mut row: usize = 0;
        while row < NOTE_COUNT
            invariant
                row <= NOTE_COUNT,
                self.wf(),
                old(self).wf(),
                self.grid == old(self).grid,
                self.clock == old(self).clock,
                self.tempo == old(self).tempo,
                self.active == old(self).active,
                self.recording == old(self).recording,
                self.recorded == old(self).recorded,
                self.osc == old(self).osc,
                forall|x: int|
                    0 <= x < row ==> (#[trigger] self@.voices[x]) == old(self)@.scheduled().voices[x],
                forall|x: int|
                    row <= x < NOTE_COUNT ==> (#[trigger] self@.voices[x]) == old(self)@.voices[x],
            decreases NOTE_COUNT - row,
        {
            let note = self.grid[row * MEAS_COUNT + self.clock];
            let ghost cells_row = old(self)@.cells[row as int];
            let ghost before = self@.voices[row as int];
            let mut slot = self.voices[row];
            if note.duration != 0 {
                slot = Some(
                    match slot {
                        Some(mut voice) => {
                            voice.press();
                            voice
                        },
                        None => MidiNote::new(row + LOWEST_PITCH, self.osc),
                    },
                );
            }
            if let Some(start) = note.starts_at {
                if start < MEAS_COUNT && start <= self.clock + 1 && self.grid[row * MEAS_COUNT
                    + start].duration == self.clock + 1 - start {
                    if let Some(mut voice) = slot {
                        voice.release();
                        slot = Some(voice);
                    }
                }
            }
            proof {
                let after = match slot {
                    Some(v) => Some(v@),
                    None => None,
                };
                assert(after == scheduled_voice(
                    cells_row,
                    self.clock as int,
                    before,
                    (row + LOWEST_PITCH) as nat,
                    self.osc,
                ));
                if let Some(v) = slot {
                    use_type_invariant(&v);
                }
                lemma_put_keeps_wf(self@, row as int, after);
                assert(voice_views(self.voices@.update(row as int, slot)) =~= self@.voices.update(
                    row as int,
                    after,
                ));
            }
            put(&mut self.voices, row, slot);
            row += 1;
        }
        assert(self@.voices =~= old(self)@.scheduled().voices);
    }

    /// Lets every voice sound for the present step, whose length the tempo
    /// gives, and returns the block of each, lowest pitch first. A voice whose
    /// envelope comes to its end in this step still yields its block and is
    /// then gone.
    pub fn render(&mut self) -> (step: Step)
        requires
            old(self)@.tempo >= 1,
        ensures
            final(self)@ == old(self)@.rendered(),
            step@ == old(self)@.step(),
    {
        proof {
            use_type_invariant(&*self);
        }
        let len = buffer_len(self.tempo);
        let mut blocks: Vec<VoiceBlock> = Vec::new();
        let mut row: usize = 0;
        while row < NOTE_COUNT
            invariant
                row <= NOTE_COUNT,
                self.wf(),
                old(self).wf(),
                len == old(self)@.step_len(),
                self.grid == old(self).grid,
                self.clock == old(self).clock,
                self.tempo == old(self).tempo,
                self.active == old(self).active,
                self.recording == old(self).recording,
                self.recorded == old(self).recorded,
                self.osc == old(self).osc,
                forall|x: int|
                    0 <= x < row ==> (#[trigger] self@.voices[x]) == rendered_voice(
                        old(self)@.voices[x],
                        len as nat,
                    ),
                forall|x: int|
                    row <= x < NOTE_COUNT ==> (#[trigger] self@.voices[x]) == old(self)@.voices[x],
                block_views(blocks@) == blocks_upto(old(self)@.voices, len as nat, row as nat),
            decreases NOTE_COUNT - row,
        {
            let ghost before = self@.voices[row as int];
            let ghost done = block_views(blocks@);
            if let Some(mut voice) = self.voices[row] {
                let ghost start = voice@;
                assert(before == Some(start));
                proof {
                    use_type_invariant(&voice);
                }
                let mut slot: Option<MidiNote> = None;
                if voice.is_alive() {
                    let note = voice.note();
                    let osc = voice.oscillator();
                    let first_sample = voice.num_sample().wrapping_add(1);
                    let levels = voice.get_buffer(len);
                    proof {
                        assert forall|i: int| 0 <= i < levels@.len() implies #[trigger] as_levels(
                            levels@,
                        )[i] <= FULL_LEVEL by {
                            lemma_after_wf(start, (i + 1) as nat);
                            let expected = start.levels(len as nat);
                            assert(as_levels(levels@) == expected);
                            assert(as_levels(levels@).len() == levels@.len());
                            assert(expected[i] == start.after((i + 1) as nat).level);
                        }
                        assert(start.after(1) == start.after(0).next());
                    }
                    let block = VoiceBlock { note, osc, first_sample, levels };
                    assert(block@ == Block::of(start, len as nat));
                    blocks.push(block);
                    if voice.is_alive() {
                        slot = Some(voice);
                    }
                    proof {
                        assert(block_views(blocks@) =~= done.push(Block::of(start, len as nat)));
                    }
                }
                proof {
                    let after = match slot {
                        Some(v) => Some(v@),
                        None => None,
                    };
                    assert(after == rendered_voice(before, len as nat));
                    lemma_after_wf(start, len as nat);
                    lemma_put_keeps_wf(self@, row as int, after);
                    assert(voice_views(self.voices@.update(row as int, slot))
                        =~= self@.voices.update(row as int, after));
                }
                put(&mut self.voices, row, slot);
            }
            row += 1;
        }
        assert(self@.voices =~= old(self)@.rendered().voices);
        Step { len, blocks }
    }

    /// Produces the step, if one is due: runs the scheduler and lets the
    /// voices sound. None is due, and nothing changes, while the engine is
    /// stopped or more than `MAX_PENDING_BUFFERS` buffers wait to be played.
    pub fn tick(&mut self, pending: usize) -> (due: Option<Step>)
        requires
            old(self)@.ready(pending as nat) ==> old(self)@.tempo >= 1,
        ensures
            match due {
                Some(step) => old(self)@.ready(pending as nat) && final(self)@ == old(
                    self,
                )@.scheduled().rendered() && step@ == old(self)@.scheduled().step(),
                None => !old(self)@.ready(pending as nat) && final(self)@ == old(self)@,
            },
    {
        if !self.active || pending > MAX_PENDING_BUFFERS {
            return None;
        }
        self.schedule();
        Some(self.render())
    }

    /// Ends a step: gives every voice of the step its waveform, mixes the
    /// voices into the buffer of the step, keeps the buffer if the engine
    /// records, and moves the clock one step on.
    ///
    /// `waves` holds one waveform for each block of the step, in their order.
    /// A tempo set since the step was produced does not touch its length.
    pub fn emit(&mut self, step: Step, waves: &Vec<Vec<i32>>) -> (data: Vec<i32>)
        ensures
            as_ints(data@) == step@.mixed(buffers(waves@)),
            final(self)@ == old(self)@.emitted(data@),
    {
        proof {
            use_type_invariant(&*self);
        }
        let ghost given = buffers(waves@);
        let silence: Vec<i32> = Vec::new();
        let mut voices: Vec<Vec<i32>> = Vec::new();
        let mut j: usize = 0;
        while j < step.blocks.len()
            invariant
                j <= step.blocks@.len(),
                given == buffers(waves@),
                silence@.len() == 0,
                voices@.len() == j,
                forall|k: int|
                    0 <= k < j ==> as_ints((#[trigger] voices@[k])@) == step@.blocks[k].shaped(
                        StepView::wave_at(given, k),
                    ),
            decreases step.blocks@.len() - j,
        {
            let wave = if j < waves.len() {
                &waves[j]
            } else {
                &silence
            };
            proof {
                assert(as_ints(wave@) =~= StepView::wave_at(given, j as int));
            }
            let samples = step.blocks[j].shape(wave);
            voices.push(samples);
            j += 1;
        }
        assert(buffers(voices@) =~= step@.shaped(given));
        let data = mix(&voices, step.len);
        if self.recording {
            let mut kept: Vec<i32> = Vec::new();
            core::mem::swap(&mut self.recorded, &mut kept);
            let mut i: usize = 0;
            while i < data.len()
                invariant
                    i <= data@.len(),
                    kept@ == old(self).recorded@ + data@.take(i as int),
                decreases data@.len() - i,
            {
                kept.push(data[i]);
                proof {
                    assert(data@.take(i as int + 1) =~= data@.take(i as int).push(data@[i as int]));
                }
                i += 1;
            }
            assert(data@.take(data@.len() as int) =~= data@);
            core::mem::swap(&mut self.recorded, &mut kept);
        }
        self.clock = if self.clock + 1 >= MEAS_COUNT {
            0
        } else {
            self.clock + 1
        };
        data
    }

    /// Lays the entries of a play command over the grid.
    fn overlay(&mut self, changed: &Vec<(Note, usize, usize)>)
        ensures
            final(self)@ == (EngineState {
                cells: overlaid(old(self)@.cells, changed@),
                ..old(self)@
            }),
    {
        proof {
            use_type_invariant(&*self);
        }
        let mut k: usize = 0;
        while k < changed.len()
            invariant
                k <= changed@.len(),
                self.wf(),
                self@ == (EngineState {
                    cells: overlaid(old(self)@.cells, changed@.take(k as int)),
                    ..old(self)@
                }),
            decreases changed@.len() - k,
        {
            let (note, row, step) = changed[k];
            proof {
                let upto = changed@.take(k as int + 1);
                assert(upto.drop_last() =~= changed@.take(k as int));
                assert(upto.last() == changed@[k as int]);
            }
            if row < NOTE_COUNT && step < MEAS_COUNT {
                proof {
                    lemma_grid_update(self.grid@, row as int, step as int, note);
                }
                self.grid[row * MEAS_COUNT + step] = note;
            }
            k += 1;
        }
        assert(changed@.take(changed@.len() as int) =~= changed@);
    }
}

/// Puts `voice` in slot `row` of a voice table.
fn put(voices: &mut Vec<Option<MidiNote>>, row: usize, voice: Option<MidiNote>)
    requires
        row < old(voices)@.len(),
    ensures
        final(voices)@ == old(voices)@.update(row as int, voice),
    no_unwind
{
    voices[row] = voice;
}

} // verus!
