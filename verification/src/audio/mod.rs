//! Capturing audio from a microphone.
use vstd::prelude::*;

pub mod capture;
pub mod choices;
pub mod dump;
pub mod json;
pub mod layout;
pub mod mono;
pub mod ordering;
pub mod pipewire;
pub mod recorder;
pub mod samples;
pub mod stream;
pub mod wav;

verus! {

/// Desired sample rate for speech recognition.
pub const SAMPLE_RATE: u32 = 16_000;

/// Number of channels (mono).
pub const CHANNELS: u16 = 1;

} // verus!
