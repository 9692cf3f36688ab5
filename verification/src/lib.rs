//! The playing logic of a virtual pipe organ: which pipes sound, how their
//! samples loop and fade, what the console remembers, and the file formats and
//! reports that go with it.
use vstd::prelude::*;

pub mod banks;
pub mod bit_set;
pub mod console;
pub mod hid;
pub mod le_bytes;
pub mod midi;
pub mod order;
pub mod player;
pub mod ports;
pub mod recording;
pub mod resampler;
pub mod riff_file;
pub mod sample_info;
pub mod sampler;
pub mod smpl;
pub mod stops;

verus! {

/// Banks per letter.
pub const NUMBER_COUNT: u8 = 8;

/// Letters that name the groups of banks.
pub const LETTER_COUNT: u8 = 8;

/// Manuals; the pedal is one more, numbered `MANUAL_COUNT`.
pub const MANUAL_COUNT: usize = 3;

/// Registers (stops) of the organ.
pub const REGISTER_COUNT: usize = 16 * 8;

/// Keys of a manual.
pub const NOTE_COUNT: usize = 61;

/// The MIDI number of a manual's lowest key.
pub const NOTE_START: usize = 36;

/// Samples of a pipe that are worth loading ahead of time.
pub const PRELOAD_SAMPLES: usize = 10000;

} // verus!
