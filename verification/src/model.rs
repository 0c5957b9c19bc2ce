//! The mathematical model of a timeline: sequences of pending points, the
//! ordered-insertion function, the dispatch expansion rules, and the
//! well-formedness conditions that keep every tick computation inside the
//! tick-counter's integer width.

use vstd::prelude::*;

use crate::device::Note;

verus! {

/// Model of one pending point: an absolute due tick and the action it
/// carries.
pub struct PointModel {
    pub timestamp: int,
    pub action: ActionModel,
}

/// Model of one authored point: a tick delay relative to the previous
/// authored point in the same script.
pub struct ScriptPointModel {
    pub delay: int,
    pub action: ActionModel,
}

/// Model of an action payload.
pub enum ActionModel {
    /// A device-defined request, named by an opaque code.
    Custom { function: int },
    /// Start sustaining a pitch on a channel.
    NoteOn { channel: int, value: Note },
    /// Stop a channel.
    NoteOff { channel: int },
    /// Sugar: expands into a `NoteOn` now and a `NoteOff` after `duration`.
    PlayNote { channel: int, value: Note, duration: int },
    /// Re-emit `timeline` shifted to the point's own tick, and re-arm once
    /// per `period` until `times` cycles have run.
    Repetition { timeline: Seq<PointModel>, period: int, times: int },
    /// A no-op placeholder.
    Marker,
}

/// The timeline invariant: timestamps never decrease along the stored order.
pub open spec fn ordered(s: Seq<PointModel>) -> bool {
    forall|i: int, j: int|
        0 <= i <= j < s.len() ==> #[trigger] s[i].timestamp <= #[trigger] s[j].timestamp
}

/// The first index whose timestamp strictly exceeds `t`; `s.len()` if none
/// does. New points go there, so a new point lands after every existing
/// point that shares its timestamp.
pub open spec fn insert_pos(s: Seq<PointModel>, t: int) -> int
    decreases s.len(),
{
    if s.len() == 0 {
        0
    } else if s[0].timestamp > t {
        0
    } else {
        1 + insert_pos(s.subrange(1, s.len() as int), t)
    }
}

/// One ordered insertion, with ties resolved first-come-first-served.
pub open spec fn inserted(s: Seq<PointModel>, p: PointModel) -> Seq<PointModel> {
    s.insert(insert_pos(s, p.timestamp), p)
}

/// Every point of `ps`, in order, inserted into `s` one at a time.
pub open spec fn inserted_all(s: Seq<PointModel>, ps: Seq<PointModel>) -> Seq<PointModel>
    decreases ps.len(),
{
    if ps.len() == 0 {
        s
    } else {
        inserted_all(inserted(s, ps[0]), ps.subrange(1, ps.len() as int))
    }
}

/// `tl` with every timestamp shifted forward by `d`.
pub open spec fn shifted(tl: Seq<PointModel>, d: int) -> Seq<PointModel> {
    tl.map(|i: int, q: PointModel| PointModel { timestamp: q.timestamp + d, action: q.action })
}

/// How far past its own timestamp a point's action can still schedule work:
/// a `PlayNote` reaches to its note-off, a `Repetition` to the end of its
/// last cycle. Everything a dispatch inserts stays within this span.
pub open spec fn action_span(a: ActionModel) -> int
    decreases a,
{
    match a {
        ActionModel::PlayNote { duration, .. } => duration,
        ActionModel::Repetition { timeline, period, times } => (times - 1) * period + extent(
            timeline,
        ),
        _ => 0,
    }
}

/// The farthest reach of any point of `tl` (its timestamp plus its action's
/// span); 0 for an empty timeline.
pub open spec fn extent(tl: Seq<PointModel>) -> int
    decreases tl,
{
    if tl.len() == 0 {
        0
    } else {
        let rest = extent(tl.subrange(0, tl.len() - 1));
        let q = tl[tl.len() - 1];
        let reach = q.timestamp + action_span(q.action);
        if reach > rest {
            reach
        } else {
            rest
        }
    }
}

/// Structural sanity of an action: durations and periods are tick counts,
/// a repetition runs at least once, and its embedded timeline is itself made
/// of sane points at non-negative relative ticks.
pub open spec fn action_wf(a: ActionModel) -> bool
    decreases a,
{
    match a {
        ActionModel::PlayNote { duration, .. } => duration >= 0,
        ActionModel::Repetition { timeline, period, times } => times >= 1 && period >= 0
            && entries_wf(timeline),
        _ => true,
    }
}

/// `action_wf` for every entry of an embedded timeline.
pub open spec fn entries_wf(tl: Seq<PointModel>) -> bool
    decreases tl,
{
    tl.len() == 0 || {
        let q = tl[tl.len() - 1];
        entries_wf(tl.subrange(0, tl.len() - 1)) && q.timestamp >= 0 && action_wf(q.action)
    }
}

/// A point the timeline can hold: a representable timestamp whose action is
/// sane and whose whole expansion stays within the tick counter's width.
pub open spec fn point_fits(p: PointModel) -> bool {
    0 <= p.timestamp && p.timestamp + action_span(p.action) <= u32::MAX && action_wf(p.action)
}

/// The full well-formedness of a live timeline.
pub open spec fn timeline_wf(s: Seq<PointModel>) -> bool {
    ordered(s) && forall|i: int| 0 <= i < s.len() ==> point_fits(#[trigger] s[i])
}

/// The sum of the first `n` authored delays: the absolute timestamp of the
/// `n`-th constructed point.
pub open spec fn delay_sum(rel: Seq<ScriptPointModel>, n: int) -> int
    decreases n,
{
    if n <= 0 {
        0
    } else {
        delay_sum(rel, n - 1) + rel[n - 1].delay
    }
}

/// Construction from an authored script: each point's absolute timestamp is
/// the running sum of the delays up to and including its own.
pub open spec fn constructed(rel: Seq<ScriptPointModel>) -> Seq<PointModel> {
    Seq::new(
        rel.len(),
        |i: int| PointModel { timestamp: delay_sum(rel, i + 1), action: rel[i].action },
    )
}

/// An authored script the constructor accepts: every constructed point fits.
pub open spec fn script_fits(rel: Seq<ScriptPointModel>) -> bool {
    forall|i: int|
        0 <= i < rel.len() ==> point_fits(
            PointModel { timestamp: delay_sum(rel, i + 1), action: (#[trigger] rel[i]).action },
        )
}

/// Merging: every point of `o`, in order, inserted into `s`.
pub open spec fn merged(s: Seq<PointModel>, o: Seq<PointModel>) -> Seq<PointModel>
    decreases o.len(),
{
    if o.len() == 0 {
        s
    } else {
        merged(inserted(s, o[0]), o.subrange(1, o.len() as int))
    }
}

/// An action dispatched by a direct device call, touching no timeline state.
pub open spec fn is_device_action(a: ActionModel) -> bool {
    match a {
        ActionModel::Custom { .. } => true,
        ActionModel::NoteOn { .. } => true,
        ActionModel::NoteOff { .. } => true,
        _ => false,
    }
}

/// No stored point is due strictly before tick `t`.
pub open spec fn none_before(s: Seq<PointModel>, t: int) -> bool {
    forall|i: int| 0 <= i < s.len() ==> (#[trigger] s[i]).timestamp >= t
}

/// The timeline after one popped point `p` is dispatched against `s`:
/// a `PlayNote` inserts its note-on at `p`'s own tick and its note-off
/// `duration` later; a `Repetition` inserts its timeline shifted by `p`'s
/// tick and, when more cycles remain, re-arms itself one period later with
/// one cycle fewer; every other action leaves the timeline alone.
pub open spec fn dispatched(s: Seq<PointModel>, p: PointModel) -> Seq<PointModel> {
    match p.action {
        ActionModel::PlayNote { channel, value, duration } => inserted(
            inserted(
                s,
                PointModel {
                    timestamp: p.timestamp,
                    action: ActionModel::NoteOn { channel, value },
                },
            ),
            PointModel {
                timestamp: p.timestamp + duration,
                action: ActionModel::NoteOff { channel },
            },
        ),
        ActionModel::Repetition { timeline, period, times } => {
            let expanded = inserted_all(s, shifted(timeline, p.timestamp));
            if times > 1 {
                inserted(
                    expanded,
                    PointModel {
                        timestamp: p.timestamp + period,
                        action: ActionModel::Repetition { timeline, period, times: times - 1 },
                    },
                )
            } else {
                expanded
            }
        },
        _ => s,
    }
}

/// Whether the front point is due exactly on tick `t`.
pub open spec fn due(s: Seq<PointModel>, t: int) -> bool {
    s.len() > 0 && s[0].timestamp == t
}

/// `n` steps of a run on tick `t`: while the front point is due, pop it and
/// dispatch it. A run that returns success has taken steps until no point is
/// due any longer.
pub open spec fn run_steps(s: Seq<PointModel>, t: int, n: nat) -> Seq<PointModel>
    decreases n,
{
    if n == 0 || !due(s, t) {
        s
    } else {
        run_steps(dispatched(s.subrange(1, s.len() as int), s[0]), t, (n - 1) as nat)
    }
}

/// The drain measure of one action: more than the summed measure of
/// everything one dispatch of it can put back onto the current tick. This is
/// what makes a run's drain loop finite even though dispatching can insert
/// new points that are due immediately.
pub open spec fn action_weight(a: ActionModel) -> int
    decreases a,
{
    match a {
        ActionModel::PlayNote { .. } => 3,
        ActionModel::Repetition { timeline, period, times } => 1 + times * (1 + weight_sum(
            timeline,
        )),
        _ => 1,
    }
}

/// The summed drain measure of an embedded timeline's entries.
pub open spec fn weight_sum(tl: Seq<PointModel>) -> int
    decreases tl,
{
    if tl.len() == 0 {
        0
    } else {
        weight_sum(tl.subrange(0, tl.len() - 1)) + action_weight(tl[tl.len() - 1].action)
    }
}

/// The summed drain measure of every stored point already due at tick `t`.
pub open spec fn due_weight(s: Seq<PointModel>, t: int) -> int
    decreases s,
{
    if s.len() == 0 {
        0
    } else {
        due_weight(s.subrange(0, s.len() - 1), t) + if s[s.len() - 1].timestamp <= t {
            action_weight(s[s.len() - 1].action)
        } else {
            0
        }
    }
}

/// `insert_pos` is in bounds, every point before it is at or before `t`, and
/// the point at it (if any) is strictly after `t`.
pub proof fn lemma_insert_pos_properties(s: Seq<PointModel>, t: int)
    ensures
        0 <= insert_pos(s, t) <= s.len(),
        forall|i: int| 0 <= i < insert_pos(s, t) ==> (#[trigger] s[i]).timestamp <= t,
        insert_pos(s, t) < s.len() ==> s[insert_pos(s, t)].timestamp > t,
    decreases s.len(),
{
    if s.len() == 0 {
    } else if s[0].timestamp > t {
    } else {
        let sub = s.subrange(1, s.len() as int);
        lemma_insert_pos_properties(sub, t);
        let k = insert_pos(s, t);
        assert forall|i: int| 0 <= i < k implies (#[trigger] s[i]).timestamp <= t by {
            if i >= 1 {
                assert(sub[i - 1] == s[i]);
            }
        }
        if k < s.len() {
            assert(sub[k - 1] == s[k]);
        }
    }
}

/// Any index with the three properties of `lemma_insert_pos_properties` is
/// `insert_pos`: the scan that the executable insertion performs lands there.
pub proof fn lemma_insert_pos_unique(s: Seq<PointModel>, t: int, k: int)
    requires
        0 <= k <= s.len(),
        forall|i: int| 0 <= i < k ==> (#[trigger] s[i]).timestamp <= t,
        k < s.len() ==> s[k].timestamp > t,
    ensures
        insert_pos(s, t) == k,
    decreases s.len(),
{
    if s.len() == 0 {
    } else if s[0].timestamp > t {
        if k > 0 {
            assert(s[0].timestamp <= t);
        }
    } else {
        let sub = s.subrange(1, s.len() as int);
        assert forall|i: int| 0 <= i < k - 1 implies (#[trigger] sub[i]).timestamp <= t by {
            assert(sub[i] == s[i + 1]);
        }
        if k - 1 < sub.len() {
            assert(sub[k - 1] == s[k]);
        }
        lemma_insert_pos_unique(sub, t, k - 1);
    }
}

/// Ordered insertion keeps the ordering invariant, and ties land after every
/// existing point that shares the new point's timestamp.
pub proof fn lemma_inserted_ordered(s: Seq<PointModel>, p: PointModel)
    requires
        ordered(s),
    ensures
        ordered(inserted(s, p)),
        inserted(s, p).len() == s.len() + 1,
{
    let t = p.timestamp;
    let k = insert_pos(s, t);
    lemma_insert_pos_properties(s, t);
    s.insert_ensures(k, p);
    let r = inserted(s, p);
    assert forall|i: int, j: int| 0 <= i <= j < r.len() implies #[trigger] r[i].timestamp
        <= #[trigger] r[j].timestamp by {
        if i < k {
            assert(r[i] == s[i]);
        } else if i == k {
            assert(r[i] == p);
        } else {
            assert(r[i] == s[i - 1]);
        }
        if j < k {
            assert(r[j] == s[j]);
        } else if j == k {
            assert(r[j] == p);
        } else {
            assert(r[j] == s[j - 1]);
        }
        if i < k && j == k {
            assert(s[i].timestamp <= t);
        }
        if i == k && j > k {
            assert(s[j - 1].timestamp > t);
        }
    }
}

/// Ordered insertion of a fitting point keeps the whole invariant.
pub proof fn lemma_inserted_wf(s: Seq<PointModel>, p: PointModel)
    requires
        timeline_wf(s),
        point_fits(p),
    ensures
        timeline_wf(inserted(s, p)),
        inserted(s, p).len() == s.len() + 1,
{
    let k = insert_pos(s, p.timestamp);
    lemma_insert_pos_properties(s, p.timestamp);
    lemma_inserted_ordered(s, p);
    s.insert_ensures(k, p);
    let r = inserted(s, p);
    assert forall|i: int| 0 <= i < r.len() implies point_fits(#[trigger] r[i]) by {
        if i < k {
            assert(r[i] == s[i]);
        } else if i == k {
            assert(r[i] == p);
        } else {
            assert(r[i] == s[i - 1]);
        }
    }
}

/// Insertion never introduces a point earlier than what both sides respect.
pub proof fn lemma_inserted_floor(s: Seq<PointModel>, p: PointModel, t: int)
    requires
        none_before(s, t),
        p.timestamp >= t,
    ensures
        none_before(inserted(s, p), t),
{
    let k = insert_pos(s, p.timestamp);
    lemma_insert_pos_properties(s, p.timestamp);
    s.insert_ensures(k, p);
    let r = inserted(s, p);
    assert forall|i: int| 0 <= i < r.len() implies (#[trigger] r[i]).timestamp >= t by {
        if i < k {
            assert(r[i] == s[i]);
        } else if i == k {
            assert(r[i] == p);
        } else {
            assert(r[i] == s[i - 1]);
        }
    }
}

/// `lemma_inserted_wf`, repeated over a whole batch of fitting points.
pub proof fn lemma_inserted_all_wf(s: Seq<PointModel>, ps: Seq<PointModel>)
    requires
        timeline_wf(s),
        forall|i: int| 0 <= i < ps.len() ==> point_fits(#[trigger] ps[i]),
    ensures
        timeline_wf(inserted_all(s, ps)),
    decreases ps.len(),
{
    if ps.len() > 0 {
        lemma_inserted_wf(s, ps[0]);
        let sub = ps.subrange(1, ps.len() as int);
        assert forall|i: int| 0 <= i < sub.len() implies point_fits(#[trigger] sub[i]) by {
            assert(sub[i] == ps[i + 1]);
        }
        lemma_inserted_all_wf(inserted(s, ps[0]), sub);
    }
}

/// `lemma_inserted_floor`, repeated over a whole batch.
pub proof fn lemma_inserted_all_floor(s: Seq<PointModel>, ps: Seq<PointModel>, t: int)
    requires
        none_before(s, t),
        forall|i: int| 0 <= i < ps.len() ==> (#[trigger] ps[i]).timestamp >= t,
    ensures
        none_before(inserted_all(s, ps), t),
    decreases ps.len(),
{
    if ps.len() > 0 {
        lemma_inserted_floor(s, ps[0], t);
        let sub = ps.subrange(1, ps.len() as int);
        assert forall|i: int| 0 <= i < sub.len() implies (#[trigger] sub[i]).timestamp >= t by {
            assert(sub[i] == ps[i + 1]);
        }
        lemma_inserted_all_floor(inserted(s, ps[0]), sub, t);
    }
}

/// With non-negative delays the running timestamp never moves backwards.
pub proof fn lemma_delay_sum_monotone(rel: Seq<ScriptPointModel>, i: int, j: int)
    requires
        0 <= i <= j <= rel.len(),
        forall|k: int| 0 <= k < rel.len() ==> (#[trigger] rel[k]).delay >= 0,
    ensures
        delay_sum(rel, i) <= delay_sum(rel, j),
    decreases j,
{
    if j > i {
        lemma_delay_sum_monotone(rel, i, j - 1);
    }
}

/// An embedded timeline's extent is never negative.
pub proof fn lemma_extent_nonneg(tl: Seq<PointModel>)
    ensures
        extent(tl) >= 0,
    decreases tl,
{
    if tl.len() > 0 {
        lemma_extent_nonneg(tl.subrange(0, tl.len() - 1));
    }
}

/// Every entry's own reach is within the timeline's extent.
pub proof fn lemma_extent_bound(tl: Seq<PointModel>)
    ensures
        forall|i: int|
            0 <= i < tl.len() ==> (#[trigger] tl[i]).timestamp + action_span(tl[i].action)
                <= extent(tl),
    decreases tl,
{
    if tl.len() > 0 {
        let sub = tl.subrange(0, tl.len() - 1);
        lemma_extent_bound(sub);
        assert forall|i: int|
            0 <= i < tl.len() implies (#[trigger] tl[i]).timestamp + action_span(tl[i].action)
            <= extent(tl) by {
            if i < tl.len() - 1 {
                assert(sub[i] == tl[i]);
            }
        }
    }
}

/// A sane action's span is never negative.
pub proof fn lemma_span_nonneg(a: ActionModel)
    requires
        action_wf(a),
    ensures
        action_span(a) >= 0,
{
    match a {
        ActionModel::Repetition { timeline, period, times } => {
            lemma_extent_nonneg(timeline);
            assert((times - 1) * period >= 0) by (nonlinear_arith)
                requires
                    times >= 1,
                    period >= 0,
            ;
        },
        _ => {},
    }
}

/// Each entry of a well-formed embedded timeline is itself sane and sits at
/// a non-negative relative tick.
pub proof fn lemma_entries_wf_index(tl: Seq<PointModel>)
    requires
        entries_wf(tl),
    ensures
        forall|i: int|
            0 <= i < tl.len() ==> (#[trigger] tl[i]).timestamp >= 0 && action_wf(tl[i].action),
    decreases tl,
{
    if tl.len() > 0 {
        let sub = tl.subrange(0, tl.len() - 1);
        lemma_entries_wf_index(sub);
        assert forall|i: int|
            0 <= i < tl.len() implies (#[trigger] tl[i]).timestamp >= 0 && action_wf(
            tl[i].action,
        ) by {
            if i < tl.len() - 1 {
                assert(sub[i] == tl[i]);
            }
        }
    }
}

/// Dispatching a point due at tick `t` never schedules anything before `t`.
pub proof fn lemma_dispatched_floor(s: Seq<PointModel>, p: PointModel, t: int)
    requires
        none_before(s, t),
        p.timestamp >= t,
        point_fits(p),
    ensures
        none_before(dispatched(s, p), t),
{
    match p.action {
        ActionModel::PlayNote { channel, value, duration } => {
            let on = PointModel { timestamp: p.timestamp, action: ActionModel::NoteOn { channel, value } };
            let off = PointModel {
                timestamp: p.timestamp + duration,
                action: ActionModel::NoteOff { channel },
            };
            lemma_inserted_floor(s, on, t);
            lemma_inserted_floor(inserted(s, on), off, t);
        },
        ActionModel::Repetition { timeline, period, times } => {
            let sh = shifted(timeline, p.timestamp);
            lemma_entries_wf_index(timeline);
            assert forall|i: int| 0 <= i < sh.len() implies (#[trigger] sh[i]).timestamp >= t by {
                assert(timeline[i].timestamp >= 0);
            }
            lemma_inserted_all_floor(s, sh, t);
            if times > 1 {
                let rearm = PointModel {
                    timestamp: p.timestamp + period,
                    action: ActionModel::Repetition { timeline, period, times: times - 1 },
                };
                lemma_inserted_floor(inserted_all(s, sh), rearm, t);
            }
        },
        _ => {},
    }
}

/// Any contiguous part of a well-formed timeline is well-formed.
pub proof fn lemma_timeline_wf_subrange(s: Seq<PointModel>, i: int, j: int)
    requires
        timeline_wf(s),
        0 <= i <= j <= s.len(),
    ensures
        timeline_wf(s.subrange(i, j)),
{
    let sub = s.subrange(i, j);
    assert forall|k: int| 0 <= k < sub.len() implies point_fits(#[trigger] sub[k]) by {
        assert(sub[k] == s[i + k]);
    }
    assert forall|a: int, b: int|
        0 <= a <= b < sub.len() implies #[trigger] sub[a].timestamp <= #[trigger] sub[b].timestamp by {
        assert(sub[a] == s[i + a]);
        assert(sub[b] == s[i + b]);
    }
}

/// Inserting a batch and then one more point is inserting the extended batch.
pub proof fn lemma_inserted_all_snoc(s: Seq<PointModel>, ps: Seq<PointModel>, q: PointModel)
    ensures
        inserted_all(s, ps.push(q)) == inserted(inserted_all(s, ps), q),
    decreases ps.len(),
{
    if ps.len() == 0 {
        assert(ps.push(q)[0] == q);
        assert(ps.push(q).subrange(1, 1) =~= Seq::<PointModel>::empty());
        assert(inserted_all(inserted(s, q), Seq::<PointModel>::empty()) == inserted(s, q));
        assert(inserted_all(s, ps) == s);
    } else {
        assert(ps.push(q)[0] == ps[0]);
        assert(ps.push(q).subrange(1, ps.len() as int + 1) =~= ps.subrange(
            1,
            ps.len() as int,
        ).push(q));
        lemma_inserted_all_snoc(inserted(s, ps[0]), ps.subrange(1, ps.len() as int), q);
        assert(inserted_all(s, ps.push(q)) == inserted_all(
            inserted(s, ps[0]),
            ps.subrange(1, ps.len() as int).push(q),
        ));
        assert(inserted_all(s, ps) == inserted_all(
            inserted(s, ps[0]),
            ps.subrange(1, ps.len() as int),
        ));
    }
}

/// A sane action weighs at least 1.
pub proof fn lemma_action_weight_pos(a: ActionModel)
    requires
        action_wf(a),
    ensures
        action_weight(a) >= 1,
    decreases a,
{
    match a {
        ActionModel::Repetition { timeline, period, times } => {
            lemma_weight_sum_nonneg(timeline);
            assert(times * (1 + weight_sum(timeline)) >= 0) by (nonlinear_arith)
                requires
                    times >= 1,
                    weight_sum(timeline) >= 0,
            ;
        },
        _ => {},
    }
}

/// A well-formed embedded timeline's summed weight is non-negative.
pub proof fn lemma_weight_sum_nonneg(tl: Seq<PointModel>)
    requires
        entries_wf(tl),
    ensures
        weight_sum(tl) >= 0,
    decreases tl,
{
    if tl.len() > 0 {
        lemma_weight_sum_nonneg(tl.subrange(0, tl.len() - 1));
        lemma_action_weight_pos(tl[tl.len() - 1].action);
    }
}

/// A timeline of fitting points has a non-negative due weight.
pub proof fn lemma_due_weight_nonneg(s: Seq<PointModel>, t: int)
    requires
        forall|i: int| 0 <= i < s.len() ==> point_fits(#[trigger] s[i]),
    ensures
        due_weight(s, t) >= 0,
    decreases s,
{
    if s.len() > 0 {
        let sub = s.subrange(0, s.len() - 1);
        assert forall|i: int| 0 <= i < sub.len() implies point_fits(#[trigger] sub[i]) by {
            assert(sub[i] == s[i]);
        }
        lemma_due_weight_nonneg(sub, t);
        if s[s.len() - 1].timestamp <= t {
            lemma_action_weight_pos(s[s.len() - 1].action);
        }
    }
}

/// The contribution of one point to a due weight.
pub open spec fn due_contribution(p: PointModel, t: int) -> int {
    if p.timestamp <= t {
        action_weight(p.action)
    } else {
        0
    }
}

/// Inserting a point anywhere adds exactly its own contribution.
pub proof fn lemma_due_weight_insert(s: Seq<PointModel>, k: int, p: PointModel, t: int)
    requires
        0 <= k <= s.len(),
    ensures
        due_weight(s.insert(k, p), t) == due_weight(s, t) + due_contribution(p, t),
    decreases s.len(),
{
    let r = s.insert(k, p);
    s.insert_ensures(k, p);
    if k == s.len() {
        assert(r[r.len() - 1] == p);
        assert(r.subrange(0, r.len() - 1) =~= s);
    } else {
        assert(r[r.len() - 1] == s[s.len() - 1]);
        let s1 = s.subrange(0, s.len() - 1);
        s1.insert_ensures(k, p);
        assert(r.subrange(0, r.len() - 1) =~= s1.insert(k, p));
        lemma_due_weight_insert(s1, k, p, t);
    }
}

/// The contribution form of `lemma_due_weight_insert` for ordered insertion.
pub proof fn lemma_due_weight_inserted(s: Seq<PointModel>, p: PointModel, t: int)
    ensures
        due_weight(inserted(s, p), t) == due_weight(s, t) + due_contribution(p, t),
{
    lemma_insert_pos_properties(s, p.timestamp);
    lemma_due_weight_insert(s, insert_pos(s, p.timestamp), p, t);
}

/// A due weight can also be peeled off at the front.
pub proof fn lemma_due_weight_front(s: Seq<PointModel>, t: int)
    requires
        s.len() > 0,
    ensures
        due_weight(s, t) == due_contribution(s[0], t) + due_weight(s.subrange(1, s.len() as int), t),
    decreases s.len(),
{
    if s.len() == 1 {
        assert(s.subrange(0, 0) =~= Seq::<PointModel>::empty());
        assert(s.subrange(1, 1) =~= Seq::<PointModel>::empty());
    } else {
        let s1 = s.subrange(0, s.len() - 1);
        let rest = s.subrange(1, s.len() as int);
        lemma_due_weight_front(s1, t);
        assert(s1.subrange(1, s1.len() as int) =~= rest.subrange(0, rest.len() - 1));
        assert(rest[rest.len() - 1] == s[s.len() - 1]);
        assert(s1[0] == s[0]);
    }
}

/// Inserting a whole batch adds exactly the batch's own due weight.
pub proof fn lemma_due_weight_inserted_all(s: Seq<PointModel>, ps: Seq<PointModel>, t: int)
    ensures
        due_weight(inserted_all(s, ps), t) == due_weight(s, t) + due_weight(ps, t),
    decreases ps.len(),
{
    if ps.len() > 0 {
        lemma_due_weight_inserted(s, ps[0], t);
        lemma_due_weight_front(ps, t);
        lemma_due_weight_inserted_all(inserted(s, ps[0]), ps.subrange(1, ps.len() as int), t);
    }
}

/// However a well-formed embedded timeline is shifted, the due part of the
/// shifted copy never outweighs the whole timeline.
pub proof fn lemma_due_weight_shifted_le(tl: Seq<PointModel>, d: int, t: int)
    requires
        entries_wf(tl),
    ensures
        due_weight(shifted(tl, d), t) <= weight_sum(tl),
    decreases tl,
{
    let sh = shifted(tl, d);
    if tl.len() > 0 {
        let tl1 = tl.subrange(0, tl.len() - 1);
        assert(sh.subrange(0, sh.len() - 1) =~= shifted(tl1, d));
        lemma_due_weight_shifted_le(tl1, d, t);
        assert(sh[sh.len() - 1].action == tl[tl.len() - 1].action);
        lemma_entries_wf_index(tl);
        lemma_action_weight_pos(tl[tl.len() - 1].action);
    }
}

/// Popping a due point and dispatching it strictly shrinks the due weight:
/// the drain loop of a run terminates.
pub proof fn lemma_dispatch_decreases(s: Seq<PointModel>, t: int)
    requires
        timeline_wf(s),
        due(s, t),
    ensures
        due_weight(dispatched(s.subrange(1, s.len() as int), s[0]), t) < due_weight(s, t),
{
    let p = s[0];
    let rest = s.subrange(1, s.len() as int);
    lemma_due_weight_front(s, t);
    assert(due_contribution(p, t) == action_weight(p.action));
    match p.action {
        ActionModel::PlayNote { channel, value, duration } => {
            let on = PointModel { timestamp: p.timestamp, action: ActionModel::NoteOn { channel, value } };
            let off = PointModel {
                timestamp: p.timestamp + duration,
                action: ActionModel::NoteOff { channel },
            };
            lemma_due_weight_inserted(rest, on, t);
            lemma_due_weight_inserted(inserted(rest, on), off, t);
        },
        ActionModel::Repetition { timeline, period, times } => {
            let ws = weight_sum(timeline);
            lemma_weight_sum_nonneg(timeline);
            lemma_due_weight_inserted_all(rest, shifted(timeline, p.timestamp), t);
            lemma_due_weight_shifted_le(timeline, p.timestamp, t);
            if times > 1 {
                let rearm = PointModel {
                    timestamp: p.timestamp + period,
                    action: ActionModel::Repetition { timeline, period, times: times - 1 },
                };
                lemma_due_weight_inserted(inserted_all(rest, shifted(timeline, p.timestamp)), rearm, t);
                assert(due_contribution(rearm, t) <= 1 + (times - 1) * (1 + ws));
                assert(times * (1 + ws) == (times - 1) * (1 + ws) + (1 + ws)) by (nonlinear_arith);
            } else {
                assert(times * (1 + ws) == 1 + ws) by (nonlinear_arith)
                    requires
                        times == 1,
                ;
            }
        },
        _ => {},
    }
}

/// Once no point is due, further drain steps change nothing.
pub proof fn lemma_run_steps_stable(s: Seq<PointModel>, t: int, n: nat, m: nat)
    requires
        !due(run_steps(s, t, n), t),
        n <= m,
    ensures
        run_steps(s, t, m) == run_steps(s, t, n),
    decreases n,
{
    if !due(s, t) {
        assert(run_steps(s, t, n) == s);
        assert(run_steps(s, t, m) == s);
    } else if n > 0 {
        let next = dispatched(s.subrange(1, s.len() as int), s[0]);
        lemma_run_steps_stable(next, t, (n - 1) as nat, (m - 1) as nat);
    }
}

/// While points stay due, one more step is one more dispatch of the front.
pub proof fn lemma_run_steps_snoc(s: Seq<PointModel>, t: int, n: nat)
    requires
        due(run_steps(s, t, n), t),
    ensures
        run_steps(s, t, n + 1) == dispatched(
            run_steps(s, t, n).subrange(1, run_steps(s, t, n).len() as int),
            run_steps(s, t, n)[0],
        ),
    decreases n,
{
    let next = dispatched(s.subrange(1, s.len() as int), s[0]);
    if n == 0 {
        assert(run_steps(s, t, 0) == s);
        assert(run_steps(next, t, 0) == next);
        assert(run_steps(s, t, 1) == run_steps(next, t, 0));
    } else if due(s, t) {
        assert(run_steps(s, t, n) == run_steps(next, t, (n - 1) as nat));
        assert(run_steps(s, t, n + 1) == run_steps(next, t, n));
        lemma_run_steps_snoc(next, t, (n - 1) as nat);
        assert((n - 1) as nat + 1 == n);
    } else {
        assert(run_steps(s, t, n) == s);
    }
}

} // verus!
