//! The interface the timeline consumes from its environment: a handle to a
//! sound-generating device, and the errors that can surface from a run.

use vstd::prelude::*;

verus! {

/// A pitch the device can sustain on a channel: a note name carrying its
/// octave.
#[derive(Clone, Copy, PartialEq, Eq, Structural, Debug)]
pub enum Note {
    A(u8),
    Ab(u8),
    B(u8),
    Bb(u8),
    C(u8),
    Cs(u8),
    D(u8),
    Eb(u8),
    E(u8),
    F(u8),
    Fs(u8),
    G(u8),
}

/// A failure reported by the device for a single operation. The code is
/// device-defined; the timeline only carries it back to the caller.
#[derive(Clone, Copy, PartialEq, Eq, Structural, Debug)]
pub struct DeviceError {
    pub code: u32,
}

/// Why a call to `Sequence::run` stopped early.
#[derive(Clone, Copy, PartialEq, Eq, Structural, Debug)]
pub enum RunError {
    /// A pending point's timestamp was already strictly behind the current
    /// tick when the timeline was examined: a deadline was missed, and the
    /// device's audible state can no longer be trusted. Scheduling must stop.
    MissedDeadline { timestamp: u32, current_tick: u32 },
    /// The device reported a failure while an action was dispatched. The
    /// timeline is left partially drained, exactly as it was at the failure.
    Device(DeviceError),
}

/// The capability set a device hands to the timeline: start a pitch on a
/// channel, stop a channel, and run a device-defined setup request.
///
/// The timeline promises nothing about what these calls do to the device;
/// each implementor is the single consumer's own handle (a sound chip, a
/// recorder in a test, a console printer).
pub trait Device {
    /// Start sustaining `value` on `channel`.
    fn start_channel(&mut self, channel: usize, value: Note) -> Result<(), DeviceError>;

    /// Stop whatever `channel` is currently sustaining.
    fn stop_channel(&mut self, channel: usize) -> Result<(), DeviceError>;

    /// Run the device-defined request named by `function` (for instance,
    /// loading an instrument's timbre parameters before playback).
    fn custom(&mut self, function: u32) -> Result<(), DeviceError>;
}

} // verus!
