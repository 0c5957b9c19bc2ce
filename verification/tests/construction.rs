use note_sequencer::device::Note;
use note_sequencer::sequencer::{AbsoluteActionPoint, Action, ActionPoint, Sequence};

fn note_on(channel: usize) -> Action {
    Action::NoteOn {
        channel,
        value: Note::C(4),
    }
}

fn timestamps(sequence: &Sequence) -> Vec<u32> {
    let mut out = Vec::new();
    let mut i = 0;
    while let Some(p) = sequence.get(i) {
        out.push(p.timestamp);
        i += 1;
    }
    out
}

fn channel_of(point: &AbsoluteActionPoint) -> usize {
    match &point.value {
        Action::NoteOn { channel, .. } => *channel,
        Action::NoteOff { channel } => *channel,
        Action::PlayNote { channel, .. } => *channel,
        _ => panic!("point carries no channel"),
    }
}

#[test]
fn construct_accumulates_delays() {
    let sequence = Sequence::try_new(&[
        ActionPoint::new(5, note_on(0)),
        ActionPoint::new(0, note_on(1)),
        ActionPoint::new(3, note_on(2)),
    ])
    .expect("script fits");
    assert_eq!(timestamps(&sequence), vec![5, 5, 8]);
    assert_eq!(channel_of(sequence.get(0).unwrap()), 0);
    assert_eq!(channel_of(sequence.get(1).unwrap()), 1);
    assert_eq!(channel_of(sequence.get(2).unwrap()), 2);
}

#[test]
fn construct_empty_script() {
    let script: [ActionPoint; 0] = [];
    let sequence = Sequence::try_new(&script).expect("empty script fits");
    assert_eq!(sequence.len(), 0);
}

#[test]
fn insert_keeps_timestamp_order() {
    let script: [ActionPoint; 0] = [];
    let mut sequence = Sequence::try_new(&script).expect("empty script fits");
    sequence.insert(AbsoluteActionPoint::new(10, note_on(0)));
    sequence.insert(AbsoluteActionPoint::new(2, note_on(1)));
    sequence.insert(AbsoluteActionPoint::new(7, note_on(2)));
    sequence.insert(AbsoluteActionPoint::new(2, note_on(3)));
    assert_eq!(timestamps(&sequence), vec![2, 2, 7, 10]);
    // The later insertion at tick 2 landed after the earlier one.
    assert_eq!(channel_of(sequence.get(0).unwrap()), 1);
    assert_eq!(channel_of(sequence.get(1).unwrap()), 3);
    assert_eq!(channel_of(sequence.get(2).unwrap()), 2);
    assert_eq!(channel_of(sequence.get(3).unwrap()), 0);
}

#[test]
fn merge_keeps_tie_order() {
    let mut base = Sequence::try_new(&[ActionPoint::new(5, note_on(0))]).expect("fits");
    let incoming = Sequence::try_new(&[ActionPoint::new(5, note_on(1))]).expect("fits");
    base.merge(incoming);
    assert_eq!(timestamps(&base), vec![5, 5]);
    assert_eq!(channel_of(base.get(0).unwrap()), 0);
    assert_eq!(channel_of(base.get(1).unwrap()), 1);
}

#[test]
fn merge_interleaves_by_timestamp() {
    let mut base = Sequence::try_new(&[
        ActionPoint::new(0, note_on(0)),
        ActionPoint::new(10, note_on(1)),
    ])
    .expect("fits");
    let incoming = Sequence::try_new(&[ActionPoint::new(5, note_on(2))]).expect("fits");
    base.merge(incoming);
    assert_eq!(timestamps(&base), vec![0, 5, 10]);
    assert_eq!(channel_of(base.get(1).unwrap()), 2);
}

#[test]
fn try_new_rejects_delay_overflow() {
    let script = [
        ActionPoint::new(u32::MAX, note_on(0)),
        ActionPoint::new(1, note_on(1)),
    ];
    assert!(Sequence::try_new(&script).is_none());
}

#[test]
fn try_new_rejects_duration_overflow() {
    let script = [ActionPoint::new(
        u32::MAX,
        Action::PlayNote {
            channel: 0,
            value: Note::A(4),
            duration: 1,
        },
    )];
    assert!(Sequence::try_new(&script).is_none());
}

#[test]
fn try_new_rejects_zero_count_repetition() {
    let sub = Sequence::try_new(&[ActionPoint::new(0, note_on(0))]).expect("fits");
    let script = [ActionPoint::new(
        0,
        Action::Repetition {
            sequence: sub,
            repetition_duration: 4,
            repetition_times: 0,
        },
    )];
    assert!(Sequence::try_new(&script).is_none());
}

#[test]
fn try_new_accepts_repetition_at_limit() {
    let sub = Sequence::try_new(&[ActionPoint::new(10, note_on(0))]).expect("fits");
    let script = [ActionPoint::new(
        u32::MAX - 30,
        Action::Repetition {
            sequence: sub,
            repetition_duration: 10,
            repetition_times: 3,
        },
    )];
    // Last cycle starts at MAX - 10 and its point lands exactly at MAX.
    assert!(Sequence::try_new(&script).is_some());
}

#[test]
fn duplicate_is_independent() {
    let source = Sequence::try_new(&[
        ActionPoint::new(1, note_on(0)),
        ActionPoint::new(2, note_on(1)),
    ])
    .expect("fits");
    let mut copy = source.duplicate();
    assert_eq!(timestamps(&copy), timestamps(&source));
    copy.insert(AbsoluteActionPoint::new(0, note_on(2)));
    assert_eq!(source.len(), 2);
    assert_eq!(copy.len(), 3);
}
