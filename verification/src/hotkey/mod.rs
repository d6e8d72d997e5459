//! Global hotkeys from keyboard input events.
pub mod actions;
pub mod gestures;
pub mod keyboards;
pub mod keys;
pub mod listener;
