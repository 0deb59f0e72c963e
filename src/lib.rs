//! A countdown alarm: parsing and rendering of whole-second durations, and the
//! state machine that counts down, fires the alarm once at zero and then counts
//! the overtime.

pub mod duration;
pub mod timer;
