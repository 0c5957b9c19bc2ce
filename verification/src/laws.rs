//! The library's stated laws, proved once and for all over the timeline
//! model: ordered insertion, the expansion rules for `PlayNote` and
//! `Repetition`, and same-tick cascade resolution.

use vstd::prelude::*;

use crate::device::Note;
use crate::model::{
    dispatched, due, inserted, inserted_all, insert_pos, lemma_insert_pos_properties,
    lemma_inserted_ordered, lemma_run_steps_stable, ordered, run_steps, shifted, ActionModel,
    PointModel,
};

verus! {

/// Ordering invariant: inserting into an ordered timeline keeps it ordered,
/// every already-stored point keeps its position relative to the others, and
/// the new point lands after every stored point at its own or an earlier
/// tick and before every strictly later one — so points sharing a timestamp
/// stand in the order they were inserted.
pub proof fn law_ordered_insertion(s: Seq<PointModel>, p: PointModel)
    requires
        ordered(s),
    ensures
        ordered(inserted(s, p)),
        inserted(s, p).len() == s.len() + 1,
        forall|i: int|
            0 <= i < s.len() + 1 ==> #[trigger] inserted(s, p)[i] == (if i < insert_pos(
                s,
                p.timestamp,
            ) {
                s[i]
            } else if i == insert_pos(s, p.timestamp) {
                p
            } else {
                s[i - 1]
            }),
        forall|i: int|
            0 <= i < insert_pos(s, p.timestamp) ==> (#[trigger] s[i]).timestamp <= p.timestamp,
        insert_pos(s, p.timestamp) < s.len() ==> s[insert_pos(s, p.timestamp)].timestamp
            > p.timestamp,
{
    lemma_insert_pos_properties(s, p.timestamp);
    lemma_inserted_ordered(s, p);
    s.insert_ensures(insert_pos(s, p.timestamp), p);
}

/// `PlayNote` expansion: dispatching a play-note point changes the timeline
/// by exactly two insertions — a note-on at the point's own tick, then a
/// note-off `duration` ticks later — whatever else is pending.
pub proof fn law_playnote_expansion(
    s: Seq<PointModel>,
    p: PointModel,
    channel: int,
    value: Note,
    duration: int,
)
    requires
        p.action == (ActionModel::PlayNote { channel, value, duration }),
    ensures
        dispatched(s, p) == inserted(
            inserted(s, PointModel { timestamp: p.timestamp, action: ActionModel::NoteOn { channel, value } }),
            PointModel {
                timestamp: p.timestamp + duration,
                action: ActionModel::NoteOff { channel },
            },
        ),
        dispatched(s, p).len() == s.len() + 2,
{
    let on = PointModel { timestamp: p.timestamp, action: ActionModel::NoteOn { channel, value } };
    let off = PointModel {
        timestamp: p.timestamp + duration,
        action: ActionModel::NoteOff { channel },
    };
    lemma_insert_pos_properties(s, on.timestamp);
    s.insert_ensures(insert_pos(s, on.timestamp), on);
    lemma_insert_pos_properties(inserted(s, on), off.timestamp);
    inserted(s, on).insert_ensures(insert_pos(inserted(s, on), off.timestamp), off);
}

/// Repetition unrolling is lazy: one dispatch inserts the sub-timeline once,
/// shifted to the point's own tick, plus — only while more than one cycle
/// remains — a single re-armed repetition one period later with one cycle
/// fewer. On its last cycle a repetition leaves no repetition point behind.
pub proof fn law_repetition_unrolling(
    s: Seq<PointModel>,
    p: PointModel,
    timeline: Seq<PointModel>,
    period: int,
    times: int,
)
    requires
        p.action == (ActionModel::Repetition { timeline, period, times }),
    ensures
        times > 1 ==> dispatched(s, p) == inserted(
            inserted_all(s, shifted(timeline, p.timestamp)),
            PointModel {
                timestamp: p.timestamp + period,
                action: ActionModel::Repetition { timeline, period, times: times - 1 },
            },
        ),
        times <= 1 ==> dispatched(s, p) == inserted_all(s, shifted(timeline, p.timestamp)),
{
}

/// Draining a tick has one outcome: however many drain steps two runs take,
/// once neither leaves a due point they reach the same timeline. Together
/// with `Sequence::run`'s contract this pins a successful run's final state
/// exactly.
pub proof fn law_drain_unique(s: Seq<PointModel>, t: int, n: nat, m: nat)
    requires
        !due(run_steps(s, t, n), t),
        !due(run_steps(s, t, m), t),
    ensures
        run_steps(s, t, n) == run_steps(s, t, m),
{
    if n <= m {
        lemma_run_steps_stable(s, t, n, m);
    } else {
        lemma_run_steps_stable(s, t, m, n);
    }
}

/// Same-tick cascades resolve within one run: a zero-duration note due on
/// the current tick expands, fires its note-on and note-off, and drains
/// completely in three drain steps of that same tick — nothing is deferred
/// to a later tick.
pub proof fn law_same_tick_cascade(t: int, channel: int, value: Note)
    ensures
        run_steps(
            seq![
                PointModel {
                    timestamp: t,
                    action: ActionModel::PlayNote { channel, value, duration: 0 },
                },
            ],
            t,
            3,
        ) == Seq::<PointModel>::empty(),
{
    let p = PointModel { timestamp: t, action: ActionModel::PlayNote { channel, value, duration: 0 } };
    let on = PointModel { timestamp: t, action: ActionModel::NoteOn { channel, value } };
    let off = PointModel { timestamp: t, action: ActionModel::NoteOff { channel } };
    let empty = Seq::<PointModel>::empty();
    let start = seq![p];
    assert(start.subrange(1, 1) =~= empty);
    assert(insert_pos(empty, t) == 0);
    assert(inserted(empty, on) =~= seq![on]);
    assert(seq![on].subrange(1, 1) =~= empty);
    assert(insert_pos(seq![on], t) == 1);
    assert(inserted(seq![on], off) =~= seq![on, off]);
    assert(dispatched(empty, p) == seq![on, off]);
    assert(due(start, t));
    assert(run_steps(start, t, 3) == run_steps(seq![on, off], t, 2));
    assert(seq![on, off].subrange(1, 2) =~= seq![off]);
    assert(dispatched(seq![off], on) == seq![off]);
    assert(run_steps(seq![on, off], t, 2) == run_steps(seq![off], t, 1));
    assert(seq![off].subrange(1, 1) =~= empty);
    assert(dispatched(empty, off) == empty);
    assert(run_steps(seq![off], t, 1) == run_steps(empty, t, 0));
    assert(run_steps(empty, t, 0) == empty);
}

} // verus!
