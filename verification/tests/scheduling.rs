use note_sequencer::device::{Device, DeviceError, Note, RunError};
use note_sequencer::sequencer::{Action, ActionPoint, Sequence};

#[derive(Debug, PartialEq, Clone)]
enum Call {
    Start(usize, Note),
    Stop(usize),
    Custom(u32),
}

/// A device that records every operation, optionally failing on the n-th.
struct Recorder {
    calls: Vec<Call>,
    fail_on: Option<usize>,
}

impl Recorder {
    fn new() -> Recorder {
        Recorder {
            calls: Vec::new(),
            fail_on: None,
        }
    }

    fn failing_on(index: usize) -> Recorder {
        Recorder {
            calls: Vec::new(),
            fail_on: Some(index),
        }
    }

    fn outcome(&self) -> Result<(), DeviceError> {
        match self.fail_on {
            Some(index) if index + 1 == self.calls.len() => Err(DeviceError { code: 77 }),
            _ => Ok(()),
        }
    }
}

impl Device for Recorder {
    fn start_channel(&mut self, channel: usize, value: Note) -> Result<(), DeviceError> {
        self.calls.push(Call::Start(channel, value));
        self.outcome()
    }

    fn stop_channel(&mut self, channel: usize) -> Result<(), DeviceError> {
        self.calls.push(Call::Stop(channel));
        self.outcome()
    }

    fn custom(&mut self, function: u32) -> Result<(), DeviceError> {
        self.calls.push(Call::Custom(function));
        self.outcome()
    }
}

fn timestamps(sequence: &Sequence) -> Vec<u32> {
    let mut out = Vec::new();
    let mut i = 0;
    while let Some(p) = sequence.get(i) {
        out.push(p.timestamp);
        i += 1;
    }
    out
}

fn repetition_points(sequence: &Sequence) -> usize {
    let mut count = 0;
    let mut i = 0;
    while let Some(p) = sequence.get(i) {
        if matches!(p.value, Action::Repetition { .. }) {
            count += 1;
        }
        i += 1;
    }
    count
}

#[test]
fn playnote_expands_into_on_and_off() {
    let mut sequence = Sequence::try_new(&[ActionPoint::new(
        4,
        Action::PlayNote {
            channel: 0,
            value: Note::G(2),
            duration: 10,
        },
    )])
    .expect("fits");
    let mut device = Recorder::new();
    for tick in 0..4 {
        assert_eq!(sequence.run(&mut device, tick), Ok(true));
        assert!(device.calls.is_empty());
    }
    // On its own tick the note starts; only the note-on touches the device,
    // and exactly one new point (the note-off) is pending afterwards.
    assert_eq!(sequence.run(&mut device, 4), Ok(true));
    assert_eq!(device.calls, vec![Call::Start(0, Note::G(2))]);
    assert_eq!(timestamps(&sequence), vec![14]);
    for tick in 5..14 {
        assert_eq!(sequence.run(&mut device, tick), Ok(true));
    }
    assert_eq!(sequence.run(&mut device, 14), Ok(false));
    assert_eq!(
        device.calls,
        vec![Call::Start(0, Note::G(2)), Call::Stop(0)]
    );
}

#[test]
fn repetition_unrolls_lazily() {
    let sub = Sequence::try_new(&[
        ActionPoint::new(0, Action::NoteOn { channel: 0, value: Note::D(3) }),
        ActionPoint::new(5, Action::NoteOff { channel: 0 }),
    ])
    .expect("fits");
    let mut sequence = Sequence::try_new(&[ActionPoint::new(
        0,
        Action::Repetition {
            sequence: sub,
            repetition_duration: 20,
            repetition_times: 3,
        },
    )])
    .expect("fits");
    let mut device = Recorder::new();
    assert_eq!(sequence.run(&mut device, 0), Ok(true));
    // One cycle was emitted (its note-on fired at once) and one re-armed
    // repetition with one cycle fewer is pending; nothing else.
    assert_eq!(device.calls, vec![Call::Start(0, Note::D(3))]);
    assert_eq!(timestamps(&sequence), vec![5, 20]);
    assert_eq!(repetition_points(&sequence), 1);
    match &sequence.get(1).unwrap().value {
        Action::Repetition {
            repetition_duration,
            repetition_times,
            ..
        } => {
            assert_eq!(*repetition_duration, 20);
            assert_eq!(*repetition_times, 2);
        }
        other => panic!("expected a re-armed repetition, found {:?}", other),
    }
    // Drain the remaining cycles; after the last one no repetition point is
    // left anywhere.
    let mut more = true;
    for tick in 1..=60 {
        more = sequence.run(&mut device, tick).expect("no device failure");
        if !more {
            break;
        }
    }
    assert!(!more);
    assert_eq!(repetition_points(&sequence), 0);
    assert_eq!(
        device.calls,
        vec![
            Call::Start(0, Note::D(3)),
            Call::Stop(0),
            Call::Start(0, Note::D(3)),
            Call::Stop(0),
            Call::Start(0, Note::D(3)),
            Call::Stop(0),
        ]
    );
}

#[test]
fn zero_duration_note_resolves_within_one_run() {
    let mut sequence = Sequence::try_new(&[ActionPoint::new(
        7,
        Action::PlayNote {
            channel: 2,
            value: Note::Bb(5),
            duration: 0,
        },
    )])
    .expect("fits");
    let mut device = Recorder::new();
    for tick in 0..7 {
        assert_eq!(sequence.run(&mut device, tick), Ok(true));
    }
    // Both the note-on and the note-off fire before this call returns.
    assert_eq!(sequence.run(&mut device, 7), Ok(false));
    assert_eq!(
        device.calls,
        vec![Call::Start(2, Note::Bb(5)), Call::Stop(2)]
    );
    assert_eq!(sequence.len(), 0);
}

#[test]
fn zero_period_repetition_resolves_within_one_run() {
    let sub = Sequence::try_new(&[ActionPoint::new(
        0,
        Action::NoteOn { channel: 1, value: Note::E(3) },
    )])
    .expect("fits");
    let mut sequence = Sequence::try_new(&[ActionPoint::new(
        0,
        Action::Repetition {
            sequence: sub,
            repetition_duration: 0,
            repetition_times: 3,
        },
    )])
    .expect("fits");
    let mut device = Recorder::new();
    assert_eq!(sequence.run(&mut device, 0), Ok(false));
    assert_eq!(
        device.calls,
        vec![
            Call::Start(1, Note::E(3)),
            Call::Start(1, Note::E(3)),
            Call::Start(1, Note::E(3)),
        ]
    );
}

#[test]
fn run_reports_exhaustion_exactly_once_work_is_gone() {
    let mut sequence = Sequence::try_new(&[
        ActionPoint::new(0, Action::NoteOn { channel: 0, value: Note::A(4) }),
        ActionPoint::new(2, Action::NoteOff { channel: 0 }),
    ])
    .expect("fits");
    let mut device = Recorder::new();
    assert_eq!(sequence.run(&mut device, 0), Ok(true));
    assert_eq!(sequence.run(&mut device, 1), Ok(true));
    assert_eq!(sequence.run(&mut device, 2), Ok(false));
}

#[test]
fn missed_deadline_is_fatal_not_skipped() {
    let mut sequence = Sequence::try_new(&[ActionPoint::new(
        1,
        Action::NoteOn { channel: 0, value: Note::F(4) },
    )])
    .expect("fits");
    let mut device = Recorder::new();
    assert_eq!(
        sequence.run(&mut device, 3),
        Err(RunError::MissedDeadline {
            timestamp: 1,
            current_tick: 3,
        })
    );
    // Nothing was skipped or silently dropped, and the device was not touched.
    assert!(device.calls.is_empty());
    assert_eq!(timestamps(&sequence), vec![1]);
}

#[test]
fn device_failure_leaves_timeline_partially_drained() {
    let mut sequence = Sequence::try_new(&[
        ActionPoint::new(0, Action::NoteOn { channel: 0, value: Note::C(4) }),
        ActionPoint::new(0, Action::NoteOn { channel: 1, value: Note::E(4) }),
    ])
    .expect("fits");
    let mut device = Recorder::failing_on(0);
    assert_eq!(
        sequence.run(&mut device, 0),
        Err(RunError::Device(DeviceError { code: 77 }))
    );
    // The failing point was consumed; the rest stays exactly as it was.
    assert_eq!(timestamps(&sequence), vec![0]);
    let mut healthy = Recorder::new();
    assert_eq!(sequence.run(&mut healthy, 0), Ok(false));
    assert_eq!(healthy.calls, vec![Call::Start(1, Note::E(4))]);
}

#[test]
fn custom_request_reaches_the_device() {
    let mut sequence = Sequence::try_new(&[
        ActionPoint::new(0, Action::Custom { function: 42 }),
        ActionPoint::new(0, Action::Marker),
    ])
    .expect("fits");
    let mut device = Recorder::new();
    assert_eq!(sequence.run(&mut device, 0), Ok(false));
    // The custom request went through; the marker touched nothing.
    assert_eq!(device.calls, vec![Call::Custom(42)]);
}

#[test]
fn ticks_without_due_points_do_nothing() {
    let mut sequence = Sequence::try_new(&[ActionPoint::new(
        5,
        Action::NoteOn { channel: 0, value: Note::B(4) },
    )])
    .expect("fits");
    let mut device = Recorder::new();
    assert_eq!(sequence.run(&mut device, 0), Ok(true));
    assert_eq!(sequence.run(&mut device, 4), Ok(true));
    assert!(device.calls.is_empty());
    assert_eq!(sequence.len(), 1);
}
