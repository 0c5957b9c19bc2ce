//! The timeline itself: action points, the action variants, and the
//! `Sequence` container with ordered insertion, merging, and the per-tick
//! run/dispatch loop.

use vstd::prelude::*;

use crate::device::{Device, DeviceError, Note, RunError};
use crate::model::{
    action_span, action_wf, constructed, delay_sum, dispatched, due, due_weight, entries_wf,
    extent, inserted, inserted_all, is_device_action, lemma_delay_sum_monotone,
    lemma_dispatch_decreases, lemma_dispatched_floor, lemma_due_weight_nonneg,
    lemma_entries_wf_index, lemma_extent_bound, lemma_extent_nonneg, lemma_insert_pos_unique,
    lemma_inserted_all_snoc, lemma_inserted_wf, lemma_run_steps_snoc, lemma_span_nonneg,
    lemma_timeline_wf_subrange, merged, none_before, point_fits, run_steps, script_fits, shifted,
    timeline_wf, ActionModel, PointModel, ScriptPointModel,
};

verus! {

/// An authored action point: a delay in ticks relative to the previous point
/// of the same script, and the action to run.
#[derive(Debug)]
pub struct ActionPoint {
    delay: u32,
    value: Action,
}

/// A live action point: an absolute tick timestamp and the action to run.
#[derive(Debug)]
pub struct AbsoluteActionPoint {
    pub timestamp: u32,
    pub value: Action,
}

/// An action payload, interpreted against the device when its point is due.
#[derive(Debug)]
pub enum Action {
    /// A device-defined request, named by an opaque code that the device
    /// interprets (the stored-callable of the device handle's capability
    /// set).
    Custom { function: u32 },
    /// Start sustaining `value` on `channel`.
    NoteOn { channel: usize, value: Note },
    /// Stop whatever `channel` is sustaining.
    NoteOff { channel: usize },
    /// Sugar, never sent to the device itself: expands into a `NoteOn` at
    /// its own tick and a `NoteOff` `duration` ticks later.
    PlayNote { channel: usize, value: Note, duration: u32 },
    /// Re-emit `sequence`'s points shifted to this point's own tick, and,
    /// while more than one repetition remains, re-arm one period later.
    Repetition { sequence: Sequence, repetition_duration: u32, repetition_times: u32 },
    /// A no-op placeholder for authoring-time alignment.
    Marker,
}

/// An ordered collection of pending absolute action points.
#[derive(Debug)]
pub struct Sequence {
    points: Vec<AbsoluteActionPoint>,
}

/// The authored-script model of a borrowed point list.
pub open spec fn script_model(s: Seq<ActionPoint>) -> Seq<ScriptPointModel> {
    Seq::new(s.len(), |i: int| s[i]@)
}

/// The points a timeline stores, earliest first. The representation behind
/// it stays private; contracts speak of the point models instead.
pub closed spec fn stored_points(s: Sequence) -> Seq<AbsoluteActionPoint> {
    s.points@
}

/// The model of one live point.
pub open spec fn point_model(p: AbsoluteActionPoint) -> PointModel
    decreases p,
{
    PointModel { timestamp: p.timestamp as int, action: action_model(p.value) }
}

/// The model of a stored point sequence.
pub open spec fn points_model(s: Seq<AbsoluteActionPoint>) -> Seq<PointModel>
    decreases s,
{
    if s.len() == 0 {
        Seq::empty()
    } else {
        points_model(s.subrange(0, s.len() - 1)).push(point_model(s[s.len() - 1]))
    }
}

/// The model of an action payload.
pub open spec fn action_model(a: Action) -> ActionModel
    decreases a,
    via action_model_decreases
{
    match a {
        Action::Custom { function } => ActionModel::Custom { function: function as int },
        Action::NoteOn { channel, value } => ActionModel::NoteOn {
            channel: channel as int,
            value,
        },
        Action::NoteOff { channel } => ActionModel::NoteOff { channel: channel as int },
        Action::PlayNote { channel, value, duration } => ActionModel::PlayNote {
            channel: channel as int,
            value,
            duration: duration as int,
        },
        Action::Repetition { sequence, repetition_duration, repetition_times } => {
            ActionModel::Repetition {
                timeline: points_model(stored_points(sequence)),
                period: repetition_duration as int,
                times: repetition_times as int,
            }
        },
        Action::Marker => ActionModel::Marker,
    }
}

#[via_fn]
proof fn action_model_decreases(a: Action) {
    match a {
        Action::Repetition { sequence, .. } => {
            assert(stored_points(sequence) == sequence.points@);
            assert(decreases_to!(a => sequence.points@));
        },
        _ => {},
    }
}

impl View for AbsoluteActionPoint {
    type V = PointModel;

    open spec fn view(&self) -> PointModel {
        point_model(*self)
    }
}

impl View for Action {
    type V = ActionModel;

    open spec fn view(&self) -> ActionModel {
        action_model(*self)
    }
}

impl View for ActionPoint {
    type V = ScriptPointModel;

    closed spec fn view(&self) -> ScriptPointModel {
        ScriptPointModel { delay: self.delay as int, action: action_model(self.value) }
    }
}

impl View for Sequence {
    type V = Seq<PointModel>;

    open spec fn view(&self) -> Seq<PointModel> {
        points_model(stored_points(*self))
    }
}

/// The stored-sequence model is pointwise the model of each stored point.
pub proof fn lemma_points_model_index(s: Seq<AbsoluteActionPoint>)
    ensures
        points_model(s).len() == s.len(),
        forall|i: int| 0 <= i < s.len() ==> #[trigger] points_model(s)[i] == s[i]@,
    decreases s,
{
    if s.len() > 0 {
        let sub = s.subrange(0, s.len() - 1);
        lemma_points_model_index(sub);
        assert forall|i: int| 0 <= i < s.len() implies #[trigger] points_model(s)[i] == s[i]@ by {
            if i < s.len() - 1 {
                assert(points_model(s)[i] == points_model(sub)[i]);
                assert(sub[i] == s[i]);
            }
        }
    }
}

impl ActionPoint {
    /// Package a relative delay with an action.
    pub fn new(delay: u32, value: Action) -> (result: Self)
        ensures
            result@ == (ScriptPointModel { delay: delay as int, action: value@ }),
    {
        Self { delay, value }
    }
}

impl AbsoluteActionPoint {
    /// Package an absolute timestamp with an action.
    pub fn new(timestamp: u32, value: Action) -> (result: Self)
        ensures
            result@ == (PointModel { timestamp: timestamp as int, action: value@ }),
    {
        Self { timestamp, value }
    }
}

impl Action {
    /// A deep copy. A repetition's sub-timeline is duplicated wholesale: each
    /// unrolled cycle must own its points independently.
    pub fn duplicate(&self) -> (result: Action)
        ensures
            result@ == self@,
        decreases *self,
    {
        match self {
            Action::Custom { function } => Action::Custom { function: *function },
            Action::NoteOn { channel, value } => Action::NoteOn {
                channel: *channel,
                value: *value,
            },
            Action::NoteOff { channel } => Action::NoteOff { channel: *channel },
            Action::PlayNote { channel, value, duration } => Action::PlayNote {
                channel: *channel,
                value: *value,
                duration: *duration,
            },
            Action::Repetition { sequence, repetition_duration, repetition_times } => {
                Action::Repetition {
                    sequence: sequence.duplicate(),
                    repetition_duration: *repetition_duration,
                    repetition_times: *repetition_times,
                }
            },
            Action::Marker => Action::Marker,
        }
    }

    /// The action's span computed at run time: `Some(k)` exactly when the
    /// action is sane and its span `k` fits the tick-counter width.
    fn checked_span(&self) -> (result: Option<u32>)
        ensures
            match result {
                Some(k) => action_wf(self@) && action_span(self@) == k as int,
                None => !(action_wf(self@) && action_span(self@) <= u32::MAX),
            },
        decreases *self,
    {
        match self {
            Action::PlayNote { duration, .. } => Some(*duration),
            Action::Repetition { sequence, repetition_duration, repetition_times } => {
                if *repetition_times == 0 {
                    return None;
                }
                proof {
                    assert(decreases_to!(*self => *sequence));
                }
                match sequence.checked_extent() {
                    None => {
                        proof {
                            if action_wf(self@) {
                                assert((*repetition_times as int - 1) * (*repetition_duration
                                    as int) >= 0) by (nonlinear_arith)
                                    requires
                                        *repetition_times as int >= 1,
                                        *repetition_duration as int >= 0,
                                ;
                                lemma_extent_nonneg(sequence@);
                            }
                        }
                        None
                    },
                    Some(timeline_extent) => {
                        let times_minus_one: u64 = (*repetition_times - 1) as u64;
                        let period_wide: u64 = *repetition_duration as u64;
                        proof {
                            assert(times_minus_one as int * period_wide as int
                                <= 0xffff_fffe_0000_0001) by (nonlinear_arith)
                                requires
                                    0 <= times_minus_one as int <= 0xffff_ffff,
                                    0 <= period_wide as int <= 0xffff_ffff,
                            ;
                        }
                        let cycles: u64 = times_minus_one * period_wide;
                        let total: u64 = cycles + timeline_extent as u64;
                        if total > 0xffff_ffff {
                            None
                        } else {
                            Some(total as u32)
                        }
                    },
                }
            },
            _ => Some(0),
        }
    }
}

impl Sequence {
    /// The timeline invariant: points are stored in non-decreasing timestamp
    /// order and every point's whole expansion stays representable.
    pub open spec fn wf(&self) -> bool {
        timeline_wf(self@)
    }

    /// The number of pending points.
    pub fn len(&self) -> (n: usize)
        ensures
            n == self@.len(),
    {
        proof {
            lemma_points_model_index(self.points@);
        }
        self.points.len()
    }

    /// The pending point at `index` (earliest first), or `None` past the end.
    pub fn get(&self, index: usize) -> (result: Option<&AbsoluteActionPoint>)
        ensures
            match result {
                Some(p) => index < self@.len() && p@ == self@[index as int],
                None => index >= self@.len(),
            },
    {
        proof {
            lemma_points_model_index(self.points@);
        }
        if index < self.points.len() {
            Some(&self.points[index])
        } else {
            None
        }
    }

    /// The farthest reach of the stored points (each point's timestamp plus
    /// its action's span) computed at run time: `Some(k)` exactly when every
    /// entry is sane and the reach `k` fits the tick-counter width.
    fn checked_extent(&self) -> (result: Option<u32>)
        ensures
            match result {
                Some(k) => entries_wf(self@) && extent(self@) == k as int,
                None => !(entries_wf(self@) && extent(self@) <= u32::MAX),
            },
        decreases *self,
    {
        let mut best: u32 = 0;
        let mut i: usize = 0;
        proof {
            lemma_points_model_index(self.points@);
        }
        while i < self.points.len()
            invariant
                i <= self.points.len(),
                self@.len() == self.points@.len(),
                entries_wf(self@.subrange(0, i as int)),
                best as int == extent(self@.subrange(0, i as int)),
            decreases self.points.len() - i,
        {
            proof {
                lemma_points_model_index(self.points@);
                assert(decreases_to!(*self => self.points@[i as int].value));
            }
            let q = &self.points[i];
            let span_result = q.value.checked_span();
            match span_result {
                None => {
                    proof {
                        assert(self@[i as int].action == q.value@);
                        assert(self@[i as int].timestamp >= 0);
                        if entries_wf(self@) {
                            lemma_entries_wf_index(self@);
                            assert(action_wf(self@[i as int].action));
                            lemma_extent_bound(self@);
                            assert(extent(self@) >= self@[i as int].timestamp + action_span(
                                self@[i as int].action,
                            ));
                        }
                    }
                    return None;
                },
                Some(entry_span) => {
                    let reach: u64 = q.timestamp as u64 + entry_span as u64;
                    if reach > 0xffff_ffff {
                        proof {
                            assert(self@[i as int].action == q.value@);
                            assert(self@[i as int].timestamp == q.timestamp as int);
                            lemma_extent_bound(self@);
                            assert(extent(self@) >= self@[i as int].timestamp + action_span(
                                self@[i as int].action,
                            ));
                        }
                        return None;
                    }
                    let reach_narrow = reach as u32;
                    if reach_narrow > best {
                        best = reach_narrow;
                    }
                    proof {
                        assert(self@[i as int].action == q.value@);
                        assert(self@[i as int].timestamp == q.timestamp as int);
                        assert(self@.subrange(0, i as int + 1).subrange(0, i as int)
                            =~= self@.subrange(0, i as int));
                        assert(self@.subrange(0, i as int + 1)[i as int] == self@[i as int]);
                    }
                    i += 1;
                },
            }
        }
        proof {
            assert(self@.subrange(0, i as int) =~= self@);
        }
        Some(best)
    }

    /// Build a timeline from an authored script, checking at run time that
    /// every constructed point stays representable: `Some` exactly on the
    /// scripts `new` accepts.
    pub fn try_new(relative_points: &[ActionPoint]) -> (result: Option<Sequence>)
        ensures
            match result {
                Some(s) => script_fits(script_model(relative_points@)) && s@ == constructed(
                    script_model(relative_points@),
                ) && s.wf(),
                None => !script_fits(script_model(relative_points@)),
            },
    {
        let ghost script = script_model(relative_points@);
        let mut running_timestamp: u32 = 0;
        let mut idx: usize = 0;
        while idx < relative_points.len()
            invariant
                idx <= relative_points.len(),
                script == script_model(relative_points@),
                running_timestamp as int == delay_sum(script, idx as int),
                forall|j: int|
                    0 <= j < idx ==> point_fits(
                        PointModel {
                            timestamp: delay_sum(script, j + 1),
                            action: (#[trigger] script[j]).action,
                        },
                    ),
            decreases relative_points.len() - idx,
        {
            let p = &relative_points[idx];
            let next: u64 = running_timestamp as u64 + p.delay as u64;
            let ghost due_tick = delay_sum(script, idx as int + 1);
            proof {
                assert(due_tick == next as int);
            }
            if next > 0xffff_ffff {
                proof {
                    if action_wf(script[idx as int].action) {
                        lemma_span_nonneg(script[idx as int].action);
                    }
                    assert(!point_fits(
                        PointModel { timestamp: due_tick, action: script[idx as int].action },
                    ));
                }
                return None;
            }
            let span_result = p.value.checked_span();
            match span_result {
                None => {
                    proof {
                        assert(!point_fits(
                            PointModel { timestamp: due_tick, action: script[idx as int].action },
                        ));
                    }
                    return None;
                },
                Some(entry_span) => {
                    if next + entry_span as u64 > 0xffff_ffff {
                        proof {
                            assert(!point_fits(
                                PointModel {
                                    timestamp: due_tick,
                                    action: script[idx as int].action,
                                },
                            ));
                        }
                        return None;
                    }
                    running_timestamp = next as u32;
                },
            }
            idx += 1;
        }
        Some(Sequence::new(relative_points))
    }

    /// A deep copy of the whole timeline.
    pub fn duplicate(&self) -> (result: Sequence)
        ensures
            result@ == self@,
        decreases *self,
    {
        let mut points: Vec<AbsoluteActionPoint> = Vec::new();
        let mut i: usize = 0;
        while i < self.points.len()
            invariant
                i <= self.points.len(),
                points@.len() == i,
                points_model(points@) == points_model(self.points@).subrange(0, i as int),
            decreases self.points.len() - i,
        {
            let q = &self.points[i];
            proof {
                assert(decreases_to!(*self => self.points@[i as int].value));
            }
            let copy = AbsoluteActionPoint { timestamp: q.timestamp, value: q.value.duplicate() };
            let ghost before = points@;
            points.push(copy);
            proof {
                lemma_points_model_index(before);
                lemma_points_model_index(points@);
                lemma_points_model_index(self.points@);
                assert(copy@ == self.points@[i as int]@);
                assert forall|j: int| 0 <= j < points@.len() implies points_model(points@)[j]
                    == points_model(self.points@).subrange(0, i as int + 1)[j] by {
                    if j < i as int {
                        assert(points@[j] == before[j]);
                        assert(points_model(before)[j] == points_model(self.points@).subrange(
                            0,
                            i as int,
                        )[j]);
                    } else {
                        assert(points@[j] == copy);
                    }
                }
                assert(points_model(points@) =~= points_model(self.points@).subrange(
                    0,
                    i as int + 1,
                ));
            }
            i += 1;
        }
        proof {
            lemma_points_model_index(self.points@);
            assert(points_model(self.points@).subrange(0, i as int) =~= points_model(
                self.points@,
            ));
        }
        Sequence { points }
    }

    /// Build a timeline from an authored relative-delay script: each point's
    /// absolute timestamp is the running sum of the delays up to and
    /// including its own, starting from 0 at timeline start.
    pub fn new(relative_points: &[ActionPoint]) -> (result: Self)
        requires
            script_fits(script_model(relative_points@)),
        ensures
            result@ == constructed(script_model(relative_points@)),
            result.wf(),
    {
        let ghost script = script_model(relative_points@);
        let mut points: Vec<AbsoluteActionPoint> = Vec::new();
        let mut running_timestamp: u32 = 0;
        let mut idx: usize = 0;
        while idx < relative_points.len()
            invariant
                idx <= relative_points.len(),
                script == script_model(relative_points@),
                script_fits(script),
                running_timestamp as int == delay_sum(script, idx as int),
                points@.len() == idx,
                points_model(points@) == constructed(script).subrange(0, idx as int),
            decreases relative_points.len() - idx,
        {
            let p = &relative_points[idx];
            proof {
                assert(point_fits(
                    PointModel {
                        timestamp: delay_sum(script, idx as int + 1),
                        action: script[idx as int].action,
                    },
                ));
                lemma_span_nonneg(script[idx as int].action);
            }
            running_timestamp = running_timestamp + p.delay;
            let ghost before = points@;
            points.push(
                AbsoluteActionPoint { timestamp: running_timestamp, value: p.value.duplicate() },
            );
            proof {
                lemma_points_model_index(before);
                lemma_points_model_index(points@);
                assert(points@[idx as int]@ == constructed(script)[idx as int]);
                assert forall|j: int| 0 <= j < points@.len() implies points_model(points@)[j]
                    == constructed(script).subrange(0, idx as int + 1)[j] by {
                    if j < idx as int {
                        assert(points@[j] == before[j]);
                        assert(points_model(before)[j] == constructed(script).subrange(
                            0,
                            idx as int,
                        )[j]);
                    }
                }
                assert(points_model(points@) =~= constructed(script).subrange(0, idx as int + 1));
            }
            idx += 1;
        }
        proof {
            assert(constructed(script).subrange(0, idx as int) =~= constructed(script));
            assert forall|k: int| 0 <= k < script.len() implies (#[trigger] script[k]).delay
                >= 0 by {
                assert(script[k] == relative_points@[k]@);
            }
            assert forall|a: int, b: int|
                0 <= a <= b < constructed(script).len() implies #[trigger] constructed(
                script,
            )[a].timestamp <= #[trigger] constructed(script)[b].timestamp by {
                lemma_delay_sum_monotone(script, a + 1, b + 1);
            }
            assert forall|k: int| 0 <= k < constructed(script).len() implies point_fits(
                #[trigger] constructed(script)[k],
            ) by {
                assert(script[k] == script[k]);
            }
        }
        Sequence { points }
    }

    /// Merge `other` into `self`, consuming it: every point of `other` is
    /// inserted in order, so `other`'s same-tick runs keep their relative
    /// order among themselves but land after `self`'s points at their tick.
    pub fn merge(&mut self, other: Sequence)
        requires
            old(self).wf(),
            other.wf(),
        ensures
            final(self)@ == merged(old(self)@, other@),
            final(self).wf(),
    {
        let ghost target = merged(old(self)@, other@);
        let mut other = other;
        while other.points.len() > 0
            invariant
                self.wf(),
                timeline_wf(other@),
                merged(self@, other@) == target,
            decreases other.points.len(),
        {
            let ghost o = other@;
            let ghost before = other.points@;
            let p = other.points.remove(0);
            proof {
                lemma_points_model_index(before);
                lemma_points_model_index(other.points@);
                assert(p@ == o[0]);
                assert forall|j: int| 0 <= j < other.points@.len() implies points_model(
                    other.points@,
                )[j] == o.subrange(1, o.len() as int)[j] by {
                    assert(other.points@[j] == before[j + 1]);
                }
                assert(points_model(other.points@) =~= o.subrange(1, o.len() as int));
                assert forall|j: int| 0 <= j < other@.len() implies point_fits(
                    #[trigger] other@[j],
                ) by {
                    assert(other@[j] == o[j + 1]);
                }
            }
            self.insert(p);
        }
        proof {
            assert(merged(self@, other@) == self@);
        }
    }

    /// Dispatch one popped point. Direct actions (`Custom`, `NoteOn`,
    /// `NoteOff`) call the device and leave the timeline alone; `PlayNote`
    /// and `Repetition` touch no device and only insert their expansion back
    /// into the timeline; `Marker` does nothing.
    fn run_point<D: Device>(
        &mut self,
        device: &mut D,
        point: AbsoluteActionPoint,
    ) -> (result: Result<(), DeviceError>)
        requires
            old(self).wf(),
            point_fits(point@),
        ensures
            final(self)@ == dispatched(old(self)@, point@),
            final(self).wf(),
            result is Err ==> is_device_action(point@.action),
            !is_device_action(point@.action) ==> result is Ok,
    {
        let ghost pm = point@;
        let ghost s0 = self@;
        let point_timestamp = point.timestamp;
        match point.value {
            Action::Custom { function } => device.custom(function),
            Action::NoteOn { channel, value } => device.start_channel(channel, value),
            Action::NoteOff { channel } => device.stop_channel(channel),
            Action::PlayNote { channel, value, duration } => {
                proof {
                    assert(action_span(pm.action) == duration as int);
                }
                let on = AbsoluteActionPoint {
                    timestamp: point_timestamp,
                    value: Action::NoteOn { channel, value },
                };
                self.insert(on);
                let off = AbsoluteActionPoint {
                    timestamp: point_timestamp + duration,
                    value: Action::NoteOff { channel },
                };
                self.insert(off);
                Ok(())
            },
            Action::Repetition { sequence, repetition_duration, repetition_times } => {
                let ghost tl = points_model(sequence.points@);
                proof {
                    lemma_points_model_index(sequence.points@);
                }
                let mut i: usize = 0;
                while i < sequence.points.len()
                    invariant
                        i <= sequence.points.len(),
                        self.wf(),
                        tl == points_model(sequence.points@),
                        tl.len() == sequence.points@.len(),
                        point_fits(pm),
                        pm.action == (ActionModel::Repetition {
                            timeline: tl,
                            period: repetition_duration as int,
                            times: repetition_times as int,
                        }),
                        pm.timestamp == point_timestamp as int,
                        self@ == inserted_all(s0, shifted(tl, pm.timestamp).subrange(0, i as int)),
                    decreases sequence.points.len() - i,
                {
                    let ghost sh = shifted(tl, pm.timestamp);
                    proof {
                        lemma_points_model_index(sequence.points@);
                        lemma_entries_wf_index(tl);
                        lemma_extent_bound(tl);
                        lemma_extent_nonneg(tl);
                        lemma_span_nonneg(tl[i as int].action);
                        assert((repetition_times as int - 1) * (repetition_duration as int)
                            >= 0) by (nonlinear_arith)
                            requires
                                repetition_times as int >= 1,
                                repetition_duration as int >= 0,
                        ;
                        assert(tl[i as int].timestamp + action_span(tl[i as int].action) <= extent(
                            tl,
                        ));
                    }
                    let q = &sequence.points[i];
                    let shifted_point = AbsoluteActionPoint {
                        timestamp: point_timestamp + q.timestamp,
                        value: q.value.duplicate(),
                    };
                    proof {
                        assert(shifted_point@ == sh[i as int]);
                        assert(point_fits(shifted_point@));
                    }
                    self.insert(shifted_point);
                    proof {
                        assert(sh.subrange(0, i as int + 1) =~= sh.subrange(0, i as int).push(
                            sh[i as int],
                        ));
                        lemma_inserted_all_snoc(s0, sh.subrange(0, i as int), sh[i as int]);
                    }
                    i += 1;
                }
                proof {
                    assert(shifted(tl, pm.timestamp).subrange(0, i as int) =~= shifted(
                        tl,
                        pm.timestamp,
                    ));
                }
                if repetition_times > 1 {
                    proof {
                        lemma_extent_nonneg(tl);
                        assert((repetition_times as int - 2) * (repetition_duration as int)
                            >= 0) by (nonlinear_arith)
                            requires
                                repetition_times as int >= 2,
                                repetition_duration as int >= 0,
                        ;
                        assert((repetition_duration as int) + (repetition_times as int - 2)
                            * (repetition_duration as int) == (repetition_times as int - 1)
                            * (repetition_duration as int)) by (nonlinear_arith);
                    }
                    let rearm = AbsoluteActionPoint {
                        timestamp: point_timestamp + repetition_duration,
                        value: Action::Repetition {
                            sequence,
                            repetition_duration,
                            repetition_times: repetition_times - 1,
                        },
                    };
                    proof {
                        assert(point_fits(rearm@));
                    }
                    self.insert(rearm);
                }
                Ok(())
            },
            Action::Marker => Ok(()),
        }
    }

    /// Drain and dispatch every point due on `timestamp`: while the earliest
    /// pending point's tick equals `timestamp`, pop and dispatch it, so that
    /// freshly inserted same-tick expansions are picked up within this same
    /// call. A point already strictly behind `timestamp` is a missed
    /// deadline and stops everything; a device failure is returned with the
    /// timeline left exactly as the failure found it. On success the result
    /// says whether any work is still pending.
    pub fn run<D: Device>(&mut self, device: &mut D, timestamp: u32) -> (result: Result<
        bool,
        RunError,
    >)
        requires
            old(self).wf(),
        ensures
            final(self).wf(),
            (result matches Err(RunError::MissedDeadline { .. })) <==> (old(self)@.len() > 0
                && old(self)@[0].timestamp < timestamp as int),
            (match result {
                Err(RunError::MissedDeadline { timestamp: missed, current_tick }) => final(self)@
                    == old(self)@ && missed as int == old(self)@[0].timestamp && current_tick
                    == timestamp,
                _ => true,
            }),
            (match result {
                Ok(more) => {
                    &&& exists|n: nat|
                        final(self)@ == #[trigger] run_steps(old(self)@, timestamp as int, n)
                    &&& !due(final(self)@, timestamp as int)
                    &&& none_before(final(self)@, timestamp as int + 1)
                    &&& more == (final(self)@.len() > 0)
                },
                _ => true,
            }),
            (match result {
                Err(RunError::Device(_)) => exists|n: nat|
                    {
                        let reached = #[trigger] run_steps(old(self)@, timestamp as int, n);
                        &&& due(reached, timestamp as int)
                        &&& is_device_action(reached[0].action)
                        &&& final(self)@ == reached.subrange(1, reached.len() as int)
                    },
                _ => true,
            }),
    {
        let ghost t = timestamp as int;
        let ghost s0 = self@;
        let ghost mut n: nat = 0;
        loop
            invariant
                self.wf(),
                timeline_wf(s0),
                s0 == old(self)@,
                t == timestamp as int,
                self@ == run_steps(s0, t, n),
                n > 0 ==> due(s0, t),
                n > 0 ==> none_before(self@, t),
            ensures
                self.wf(),
                self@ == run_steps(s0, t, n),
                n > 0 ==> due(s0, t),
                self@.len() == 0 || self@[0].timestamp > t,
            decreases due_weight(self@, t),
        {
            proof {
                lemma_points_model_index(self.points@);
            }
            if self.points.len() == 0 {
                break;
            }
            let front_timestamp = self.points[0].timestamp;
            if front_timestamp < timestamp {
                proof {
                    if n > 0 {
                        assert(self@[0].timestamp >= t);
                    }
                    assert(n == 0);
                    assert(run_steps(s0, t, 0) == s0);
                }
                return Err(
                    RunError::MissedDeadline {
                        timestamp: front_timestamp,
                        current_tick: timestamp,
                    },
                );
            }
            if front_timestamp > timestamp {
                break;
            }
            let ghost s_cur = self@;
            let ghost before_points = self.points@;
            let point = self.points.remove(0);
            proof {
                lemma_points_model_index(before_points);
                lemma_points_model_index(self.points@);
                assert(point@ == s_cur[0]);
                assert forall|j: int| 0 <= j < self.points@.len() implies points_model(
                    self.points@,
                )[j] == s_cur.subrange(1, s_cur.len() as int)[j] by {
                    assert(self.points@[j] == before_points[j + 1]);
                }
                assert(points_model(self.points@) =~= s_cur.subrange(1, s_cur.len() as int));
                lemma_timeline_wf_subrange(s_cur, 1, s_cur.len() as int);
                assert(point_fits(s_cur[0]));
                lemma_dispatch_decreases(s_cur, t);
                if n == 0 {
                    assert(run_steps(s0, t, 0) == s0);
                }
            }
            let dispatch_result = self.run_point(device, point);
            match dispatch_result {
                Err(device_error) => {
                    proof {
                        assert(run_steps(s0, t, n) == s_cur);
                        if s0.len() > 0 && s0[0].timestamp < t {
                            assert(due(s0, t));
                        }
                    }
                    return Err(RunError::Device(device_error));
                },
                Ok(()) => {},
            }
            proof {
                lemma_run_steps_snoc(s0, t, n);
                let rest = s_cur.subrange(1, s_cur.len() as int);
                assert forall|j: int| 0 <= j < rest.len() implies (#[trigger] rest[j]).timestamp
                    >= t by {
                    assert(rest[j] == s_cur[j + 1]);
                    assert(s_cur[0].timestamp <= s_cur[j + 1].timestamp);
                }
                lemma_dispatched_floor(rest, s_cur[0], t);
                n = n + 1;
                lemma_due_weight_nonneg(self@, t);
            }
        }
        proof {
            if s0.len() > 0 && s0[0].timestamp < t {
                if n == 0 {
                    assert(run_steps(s0, t, 0) == s0);
                    assert(self@[0].timestamp < t);
                } else {
                    assert(due(s0, t));
                }
            }
            if self@.len() > 0 {
                assert forall|j: int| 0 <= j < self@.len() implies (#[trigger] self@[j]).timestamp
                    >= t + 1 by {
                    assert(self@[0].timestamp <= self@[j].timestamp);
                }
            }
            lemma_points_model_index(self.points@);
        }
        Ok(self.points.len() > 0)
    }

    /// Insert one absolute point, preserving the ordering invariant; a point
    /// that ties an existing timestamp goes after every point already stored
    /// at that timestamp.
    pub fn insert(&mut self, point: AbsoluteActionPoint)
        requires
            old(self).wf(),
            point_fits(point@),
        ensures
            final(self)@ == inserted(old(self)@, point@),
            final(self).wf(),
    {
        let mut i: usize = 0;
        while i < self.points.len() && self.points[i].timestamp <= point.timestamp
            invariant
                i <= self.points.len(),
                *self == *old(self),
                forall|j: int| 0 <= j < i ==> self@[j].timestamp <= point@.timestamp,
            decreases self.points.len() - i,
        {
            proof {
                lemma_points_model_index(self.points@);
            }
            i += 1;
        }
        proof {
            lemma_points_model_index(self.points@);
            lemma_insert_pos_unique(self@, point@.timestamp, i as int);
        }
        let ghost before = self.points@;
        self.points.insert(i, point);
        proof {
            lemma_points_model_index(before);
            lemma_points_model_index(self.points@);
            before.insert_ensures(i as int, point);
            points_model(before).insert_ensures(i as int, point@);
            assert forall|j: int| 0 <= j < points_model(self.points@).len() implies points_model(
                self.points@,
            )[j] == points_model(before).insert(i as int, point@)[j] by {
                if j < i as int {
                    assert(self.points@[j] == before[j]);
                } else if j == i as int {
                    assert(self.points@[j] == point);
                } else {
                    assert(self.points@[j] == before[j - 1]);
                }
            }
            assert(points_model(self.points@) =~= points_model(before).insert(
                i as int,
                point@,
            ));
            lemma_inserted_wf(points_model(before), point@);
        }
    }
}

} // verus!
