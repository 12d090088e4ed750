//! How many tasks there are, and that the machine goes down only when there are none.
use vstd::prelude::*;
use crate::bits::Ipi;
use crate::room::scheduler::{Hall, HallView, Stride};
use crate::room::scheduler::{bedded, buried, lain_down, strides, unparked};
use crate::scheduler::lanes::Fetched;
use crate::scheduler::lanes::Remains;
use crate::scheduler::lanes::{lemma_victim, ran, source};
use crate::scheduler::{Floor, FloorView, Lane, Step};
use crate::scheduler::{admitted, dozed, left, readied, sleeping, steps, woken};
use crate::task::Task;
use crate::tie::Tie;
use crate::tie::is_done;

verus! {

/// How many tasks one hart has.
pub open spec fn lane_crowd(l: Lane) -> nat {
    l.starved.len() + (if l.running is Some {
        1nat
    } else {
        0
    })
}

/// How many tasks the harts have.
pub open spec fn crowd(lanes: Seq<Lane>) -> nat
    decreases lanes.len(),
{
    if lanes.len() == 0 {
        0
    } else {
        crowd(lanes.drop_last()) + lane_crowd(lanes.last())
    }
}

proof fn lemma_crowd_update(lanes: Seq<Lane>, h: int, l: Lane)
    requires
        0 <= h < lanes.len(),
    ensures
        crowd(lanes.update(h, l)) + lane_crowd(lanes[h]) == crowd(lanes) + lane_crowd(l),
    decreases lanes.len(),
{
    let after = lanes.update(h, l);
    if h == lanes.len() - 1 {
        assert(after.drop_last() =~= lanes.drop_last());
    } else {
        assert(after.drop_last() =~= lanes.drop_last().update(h, l));
        lemma_crowd_update(lanes.drop_last(), h, l);
    }
}

proof fn lemma_crowd_empty(lanes: Seq<Lane>, h: int)
    requires
        crowd(lanes) == 0,
        0 <= h < lanes.len(),
    ensures
        lanes[h].starved.len() == 0,
        lanes[h].running is None,
    decreases lanes.len(),
{
    if h < lanes.len() - 1 {
        lemma_crowd_empty(lanes.drop_last(), h);
    }
}

/// Whatever a hart does next, nobody comes and nobody goes.
pub proof fn law_turns_keep_crowd(
    before: Seq<Lane>,
    tie0: Tie,
    me: usize,
    busy: Seq<bool>,
    again: Seq<bool>,
    after: Seq<Lane>,
    tie1: Tie,
    f: Fetched,
)
    requires
        ran(before, tie0, me, busy, again, after, tie1, f),
        me < before.len(),
    ensures
        crowd(after) == crowd(before),
        tie1.pushed == tie0.pushed,
        tie1.reaped == tie0.reaped,
{
    let lane = before[me as int];
    if lane.running is Some {
        lemma_crowd_update(before, me as int, lane.ticked());
    } else {
        lemma_victim(before, busy, me as int, 0);
        lemma_victim(before, again, me as int, 0);
        if let Some(v) = source(before, busy, again, me as int, is_done(tie0)) {
            let rest = before.update(v, before[v].popped());
            lemma_crowd_update(before, v, before[v].popped());
            lemma_crowd_update(rest, me as int, rest[me as int].seated(before[v].starved[0]));
        }
    }
}

/// How many tasks a floor has that have not ended.
pub open spec fn present(v: FloorView) -> nat {
    crowd(v.lanes) + v.blocked.len()
}

/// Whether the tie of a floor is right: whoever came is there or has ended.
pub open spec fn squared(f: Floor) -> bool {
    f.tie.pushed == present(f@) + f.tie.reaped
}

/// A floor goes down when everybody has ended, and not before: where the tie is right and says
/// that all is done, no hart runs a task, none is ready and none sleeps.
pub proof fn law_done_means_nobody(f: Floor, h: int)
    requires
        squared(f),
        is_done(f.tie),
        0 <= h < f@.lanes.len(),
    ensures
        f@.lanes[h].running is None,
        f@.lanes[h].starved.len() == 0,
        f@.blocked.len() == 0,
{
    lemma_crowd_empty(f@.lanes, h);
}

/// Who is admitted is counted.
pub proof fn law_admission_squares(a: Floor, b: Floor, me: usize, task: Task, calls: Seq<Ipi>)
    requires
        squared(a),
        me < a@.lanes.len(),
        a.tie.pushed < usize::MAX,
        admitted(a, b, me, task, calls),
    ensures
        squared(b),
{
    lemma_crowd_update(a@.lanes, me as int, a@.lanes[me as int].pushed(task));
}

/// The turns of a hart leave the tie right.
pub proof fn law_step_squares(
    a: Floor,
    me: usize,
    busy: Seq<bool>,
    again: Seq<bool>,
    b: Floor,
    step: Step,
)
    requires
        squared(a),
        me < a@.lanes.len(),
        steps(a, me, busy, again, b, step),
    ensures
        squared(b),
{
    let f = choose|f: Fetched| #[trigger]
        ran(a@.lanes, a.tie, me, busy, again, b@.lanes, b.tie, f);
    law_turns_keep_crowd(a@.lanes, a.tie, me, busy, again, b@.lanes, b.tie, f);
}

/// Going to sleep leaves the tie right.
pub proof fn law_sleep_squares(a: Floor, b: Floor, me: usize, wake_at: u64)
    requires
        squared(a),
        me < a@.lanes.len(),
        a@.lanes[me as int].running is Some,
        b@ == dozed(a@, me as int, wake_at),
        b.tie == a.tie,
    ensures
        squared(b),
{
    lemma_crowd_update(a@.lanes, me as int, a@.lanes[me as int].vacated());
}

proof fn lemma_woken_or_sleeping_len(s: Seq<Task>, now: u64)
    ensures
        woken(s, now).len() + sleeping(s, now).len() == s.len(),
    decreases s.len(),
{
    if s.len() > 0 {
        lemma_woken_or_sleeping_len(s.drop_last(), now);
    }
}

/// Waking the due leaves the tie right.
pub proof fn law_unpark_squares(a: Floor, b: Floor, me: usize, now: u64)
    requires
        squared(a),
        me < a@.lanes.len(),
        b@ == (FloorView {
            lanes: a@.lanes.update(
                me as int,
                Lane {
                    starved: a@.lanes[me as int].starved + woken(a@.blocked, now),
                    ..a@.lanes[me as int]
                },
            ),
            blocked: sleeping(a@.blocked, now),
            ..a@
        }),
        b.tie == a.tie,
    ensures
        squared(b),
{
    lemma_woken_or_sleeping_len(a@.blocked, now);
    lemma_crowd_update(a@.lanes, me as int, b@.lanes[me as int]);
}

/// Who ends is counted.
pub proof fn law_end_squares(a: Floor, b: Floor, me: usize)
    requires
        squared(a),
        me < a@.lanes.len(),
        a@.lanes[me as int].running is Some,
        left(a, b, me as int),
    ensures
        squared(b),
{
    lemma_crowd_update(a@.lanes, me as int, a@.lanes[me as int].vacated());
}

/// How many tasks a hall has that have not ended.
pub open spec fn hall_present(v: HallView) -> nat {
    crowd(v.lanes) + v.blocked.dom().len()
}

/// Whether the tie of a hall is right: whoever came is there or has ended.
pub open spec fn hall_squared(h: Hall) -> bool {
    &&& h@.blocked.dom().finite()
    &&& h.tie.pushed == hall_present(h@) + h.tie.reaped
}

/// A hall goes down when everybody has ended, and not before.
pub proof fn law_hall_done_means_nobody(hall: Hall, h: int)
    requires
        hall_squared(hall),
        is_done(hall.tie),
        0 <= h < hall@.lanes.len(),
    ensures
        hall@.lanes[h].running is None,
        hall@.lanes[h].starved.len() == 0,
        hall@.blocked.dom() == Set::<u64>::empty(),
{
    lemma_crowd_empty(hall@.lanes, h);
    assert(hall@.blocked.dom() =~= Set::<u64>::empty());
}

/// Who comes to a hall is counted.
pub proof fn law_hall_push_squares(a: Hall, b: Hall, me: usize, task: Task)
    requires
        hall_squared(a),
        me < a@.lanes.len(),
        a.tie.pushed < usize::MAX,
        b@ == (HallView {
            lanes: a@.lanes.update(me as int, a@.lanes[me as int].pushed(task)),
            ..a@
        }),
        b.tie == (Tie { pushed: a.tie.pushed.wrapping_add(1), ..a.tie }),
    ensures
        hall_squared(b),
{
    lemma_crowd_update(a@.lanes, me as int, a@.lanes[me as int].pushed(task));
}

/// The turns of a hart leave the tie of its hall right.
pub proof fn law_stride_squares(
    a: Hall,
    me: usize,
    busy: Seq<bool>,
    again: Seq<bool>,
    delta: u64,
    b: Hall,
    stride: Stride,
)
    requires
        hall_squared(a),
        me < a@.lanes.len(),
        strides(a, me, busy, again, delta, b, stride),
    ensures
        hall_squared(b),
{
    let f = choose|f: Fetched| #[trigger]
        ran(a@.lanes, a.tie, me, busy, again, b@.lanes, b.tie, f);
    law_turns_keep_crowd(a@.lanes, a.tie, me, busy, again, b@.lanes, b.tie, f);
}

/// Lying down leaves the tie of the hall right.
pub proof fn law_lying_down_squares(a: Hall, b: Hall, me: usize, at: u64)
    requires
        a.wf(),
        hall_squared(a),
        me < a@.lanes.len(),
        a@.lanes[me as int].running is Some,
        lain_down(a, b, me as int, at),
    ensures
        hall_squared(b),
{
    lemma_crowd_update(a@.lanes, me as int, a@.lanes[me as int].vacated());
    assert(bedded(a@, me as int, at).blocked.dom() =~= a@.blocked.dom().insert(a@.next_handle));
}

/// Passed deadlines wake everybody that they name and nobody else.
pub proof fn law_tocks_keep_crowd(v: HallView, me: int, due: Seq<u64>)
    requires
        v.blocked.dom().finite(),
        0 <= me < v.lanes.len(),
    ensures
        unparked(v, me, due).blocked.dom().finite(),
        unparked(v, me, due).lanes.len() == v.lanes.len(),
        hall_present(unparked(v, me, due)) == hall_present(v),
    decreases due.len(),
{
    if due.len() > 0 {
        law_tocks_keep_crowd(v, me, due.drop_last());
        let w = unparked(v, me, due.drop_last());
        let k = due.last();
        if w.blocked.contains_key(k) {
            lemma_crowd_update(w.lanes, me, w.lanes[me].pushed(readied(w.blocked[k])));
            assert(w.blocked.remove(k).dom() =~= w.blocked.dom().remove(k));
        }
    }
}

/// Who ends in a hall is counted.
pub proof fn law_burial_squares(a: Hall, b: Hall, me: usize, gone: Seq<Remains>)
    requires
        hall_squared(a),
        me < a@.lanes.len(),
        a@.lanes[me as int].running is Some,
        buried(a, b, me as int, gone),
    ensures
        hall_squared(b),
{
    lemma_crowd_update(a@.lanes, me as int, a@.lanes[me as int].vacated());
}

} // verus!
