//! A note-grid step sequencer: the pitch-by-step grid and the rules by which
//! clicks edit it, the synthesis voices with their amplitude envelope, and the
//! engine that schedules the voices from the grid, mixes them and keeps a
//! recording, one step at a time.
//!
//! Everything here is whole numbers. An envelope level counts units of
//! `1 / SR` of full scale, so that every per-sample rate is a whole number; a
//! sample is an `i32` on a scale of its owner's choosing. The library does no
//! input or output and evaluates no waveform: the program around it reads the
//! commands, hands the engine the waveform of each sounding voice, plays the
//! buffers and writes the recordings.
//!
//! - [`instr`]: the grid and the names of the pitches.
//! - [`sequencer`]: the commands for the engine, the editing rules and the
//!   state of the sequencer as its user sees it.
//! - [`synth`]: a voice and its envelope.
//! - [`mixer`]: the normalising mix.
//! - [`engine`]: the engine.

pub mod engine;
pub mod instr;
pub mod mixer;
pub mod sequencer;
pub mod synth;
