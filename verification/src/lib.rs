//! Microphone selection, PCM handling and hotkey gestures of a local voice
//! dictation daemon.
pub mod audio;
pub mod hotkey;
pub mod text;
