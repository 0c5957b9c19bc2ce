//! A discrete-event timeline for driving a sound-generating device from a
//! periodic hardware tick.
//!
//! The library stores pending timed actions in timestamp order, drains every
//! action due on the current tick, and expands higher-level actions (play a
//! note for a duration, repeat a passage) into lower-level ones at run time.
//! The device itself is reached only through the [`device::Device`]
//! capability trait; the scheduling logic is verified.

pub mod device;
pub mod laws;
pub mod model;
pub mod sequencer;
