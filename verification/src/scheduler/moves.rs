//! What single moves of the harts do: who is taken up, who is robbed, who sleeps and wakes, and
//! what is left of who has ended.
use vstd::prelude::*;
use crate::room::scheduler::{Hall, HallView, Note, Stride};
use crate::room::scheduler::{
    bedded, buried, far, husk_notes, lane_notes, queue_notes, risers, strides, unparked, work_there,
};
use crate::scheduler::lanes::{Fetched, Remains};
use crate::scheduler::lanes::{
    all_remains, census_of, cleared, fetched, next_victim, ran, robbable, turn, victim,
};
use crate::scheduler::{Floor, FloorView, Lane, Step};
use crate::scheduler::{admitted, dozed, left, readied, sent_off, sleeping, steps, woken};
use crate::task::{BlockReason, Task, TaskState, legal};
use crate::team::{Team, law_prune, pruned};
use crate::tie::{Tie, is_done};

verus! {

/// A hart without work robs the lowest hart from `from` on that is another one, has work and
/// is not locked, and nobody where there is none.
pub proof fn law_lowest_is_robbed(lanes: Seq<Lane>, busy: Seq<bool>, me: int, from: int)
    requires
        0 <= from,
    ensures
        victim(lanes, busy, me, from) matches Some(v) ==> {
            &&& from <= v < lanes.len()
            &&& v != me
            &&& lanes[v].starved.len() > 0
            &&& !busy[v]
            &&& forall|h: int|
                from <= h < v && h != me && !(#[trigger] busy[h]) ==> lanes[h].starved.len() == 0
        },
        victim(lanes, busy, me, from) is None ==> forall|h: int|
            from <= h < lanes.len() && h != me && !(#[trigger] busy[h]) ==> lanes[h].starved.len()
                == 0,
    decreases lanes.len() - from,
{
    if from < lanes.len() && !robbable(lanes, busy, me, from) {
        law_lowest_is_robbed(lanes, busy, me, from + 1);
    }
}

/// A hart that looks for work in turn robs the first hart, counted from the start and round,
/// that is another one, has work and is not locked.
pub proof fn law_next_in_turn_is_robbed(
    lanes: Seq<Lane>,
    busy: Seq<bool>,
    me: int,
    start: int,
    off: int,
)
    requires
        0 <= off,
    ensures
        next_victim(lanes, busy, me, start, off) matches Some(v) ==> {
            &&& 0 <= v < lanes.len()
            &&& v != me
            &&& lanes[v].starved.len() > 0
            &&& !busy[v]
            &&& exists|k: int|
                {
                    &&& off <= k < lanes.len()
                    &&& v == #[trigger] turn(start, k, lanes.len() as int)
                    &&& forall|j: int|
                        off <= j < k ==> !robbable(
                            lanes,
                            busy,
                            me,
                            #[trigger] turn(start, j, lanes.len() as int),
                        )
                }
        },
        next_victim(lanes, busy, me, start, off) is None ==> forall|j: int|
            off <= j < lanes.len() ==> !robbable(
                lanes,
                busy,
                me,
                #[trigger] turn(start, j, lanes.len() as int),
            ),
    decreases lanes.len() - off,
{
    if off < lanes.len() {
        let n = lanes.len() as int;
        if robbable(lanes, busy, me, turn(start, off, n)) {
            assert(turn(start, off, n) == turn(start, off, n));
        } else {
            law_next_in_turn_is_robbed(lanes, busy, me, start, off + 1);
            if next_victim(lanes, busy, me, start, off + 1) is Some {
                let v = next_victim(lanes, busy, me, start, off + 1)->0;
                let k = choose|k: int|
                    {
                        &&& off + 1 <= k < n
                        &&& v == #[trigger] turn(start, k, n)
                        &&& forall|j: int|
                            off + 1 <= j < k ==> !robbable(lanes, busy, me, #[trigger] turn(start, j, n))
                    };
                assert(v == turn(start, k, n));
                assert forall|j: int| off <= j < k implies !robbable(
                    lanes,
                    busy,
                    me,
                    #[trigger] turn(start, j, n),
                ) by {}
            }
        }
    }
}

/// Turns go up by one and round.
pub proof fn law_turns_go_round(start: int, off: int, n: int)
    requires
        0 <= start < n,
        0 <= off < n,
    ensures
        turn(start, off, n) == (if start + off < n {
            start + off
        } else {
            start + off - n
        }),
{
    if start + off < n {
        vstd::arithmetic::div_mod::lemma_small_mod((start + off) as nat, n as nat);
    } else {
        vstd::arithmetic::div_mod::lemma_mod_add_multiples_vanish(start + off - n, n);
        vstd::arithmetic::div_mod::lemma_small_mod((start + off - n) as nat, n as nat);
    }
}

/// An idle hart takes the first of its own queue if there is one, and no other hart's then.
/// What it takes runs for a whole slice of 8 ticks on its own stack.
pub proof fn law_own_work_comes_first(
    before: Seq<Lane>,
    tie0: Tie,
    me: usize,
    busy: Seq<bool>,
    again: Seq<bool>,
    after: Seq<Lane>,
    tie1: Tie,
    f: Fetched,
)
    requires
        me < before.len(),
        before[me as int].starved.len() > 0,
        fetched(before, tie0, me, busy, again, after, tie1, f),
    ensures
        ({
            let l = before[me as int];
            let m = after[me as int];
            &&& m.starved == l.starved.drop_first()
            &&& m.running is Some
            &&& m.running->0.id == l.starved[0].id
            &&& m.running->0.state == (TaskState::Running { ticks_left: 8 })
            &&& m.running->0.kernel_sp == l.top
            &&& m.running->0.trap == l.starved[0].trap
            &&& forall|h: int| 0 <= h < before.len() && h != me ==> #[trigger] after[h] == before[h]
            &&& f matches Fetched::Run(d) && d.pa == l.starved[0].trap.pa && d.arm
            &&& tie1 == tie0
        }),
{
    let l = before[me as int];
    assert(l.starved.subrange(1, l.starved.len() as int) =~= l.starved.drop_first());
}

/// An idle hart with an empty queue robs another of the first in its queue, while there is work
/// left to do; it waits where it finds none, and halts when all is done.
pub proof fn law_idle_hart_robs(
    before: Seq<Lane>,
    tie0: Tie,
    me: usize,
    busy: Seq<bool>,
    again: Seq<bool>,
    after: Seq<Lane>,
    tie1: Tie,
    f: Fetched,
)
    requires
        me < before.len(),
        before[me as int].starved.len() == 0,
        busy.len() == before.len(),
        again.len() == before.len(),
        fetched(before, tie0, me, busy, again, after, tie1, f),
    ensures
        f is Halt <==> tie0.pushed > 0 && tie0.reaped == tie0.pushed,
        f is Halt || f is Wait ==> after == before,
        f is Wait ==> forall|h: int|
            0 <= h < before.len() && h != me && !(#[trigger] again[h]) ==> before[h].starved.len() == 0,
        !(f is Halt) && (exists|h: int|
            0 <= h < before.len() && h != me && !(#[trigger] busy[h]) && before[h].starved.len() > 0)
            ==> f is Run,
        f is Wait ==> tie1.waiting.has(me as int),
        f is Run && tie1 != tie0 ==> !tie1.waiting.has(me as int),
        f matches Fetched::Run(d) ==> d.arm && exists|v: int|
            {
                &&& 0 <= v < before.len()
                &&& v != me
                &&& (#[trigger] before[v]).starved.len() > 0
                &&& d.pa == before[v].starved[0].trap.pa
                &&& after[v].starved == before[v].starved.drop_first()
                &&& after[v].running == before[v].running
                &&& after[me as int].running is Some
                &&& after[me as int].running->0.id == before[v].starved[0].id
                &&& after[me as int].running->0.trap == before[v].starved[0].trap
                &&& after[me as int].running->0.state == (TaskState::Running { ticks_left: 8 })
                &&& after[me as int].running->0.kernel_sp == before[me as int].top
                &&& after[me as int].starved.len() == 0
                &&& forall|h: int|
                    0 <= h < before.len() && h != me && h != v ==> #[trigger] after[h] == before[h]
            },
{
    law_lowest_is_robbed(before, busy, me as int, 0);
    law_lowest_is_robbed(before, again, me as int, 0);
    if f is Run {
        let a = victim(before, busy, me as int, 0);
        let v = if a is Some {
            a->0
        } else {
            victim(before, again, me as int, 0)->0
        };
        assert(before[v].starved.subrange(1, before[v].starved.len() as int)
            =~= before[v].starved.drop_first());
        assert(before[v].starved.len() > 0);
    }
}

/// A running task keeps its hart while its slice lasts, one tick less; when it is used up the
/// first of the queue runs for a whole slice and the task goes to the end; with an empty queue
/// it runs on.
pub proof fn law_running_keeps_the_hart(
    before: Seq<Lane>,
    tie0: Tie,
    me: usize,
    busy: Seq<bool>,
    again: Seq<bool>,
    after: Seq<Lane>,
    tie1: Tie,
    f: Fetched,
)
    requires
        me < before.len(),
        before[me as int].running is Some,
        before[me as int].running->0.state is Running,
        ran(before, tie0, me, busy, again, after, tie1, f),
    ensures
        ({
            let l = before[me as int];
            let m = after[me as int];
            let cur = l.running->0;
            let left = cur.state->ticks_left;
            &&& tie1 == tie0
            &&& m.running is Some
            &&& f matches Fetched::Run(d) && d.pa == m.running->0.trap.pa && (d.arm <==> left <= 1
                && l.starved.len() > 0)
            &&& left > 1 ==> m.starved == l.starved && m.running->0.id == cur.id
                && m.running->0.state == (TaskState::Running { ticks_left: (left - 1) as u32 })
            &&& left <= 1 && l.starved.len() == 0 ==> m == l
            &&& left <= 1 && l.starved.len() > 0 ==> {
                &&& m.running->0.id == l.starved[0].id
                &&& m.running->0.state == (TaskState::Running { ticks_left: 8 })
                &&& m.running->0.kernel_sp == l.top
                &&& m.starved.len() == l.starved.len()
                &&& m.starved.last().id == cur.id
                &&& m.starved.last().state == TaskState::Starved
                &&& forall|i: int|
                    0 <= i < l.starved.len() - 1 ==> #[trigger] m.starved[i] == l.starved[i + 1]
            }
            &&& forall|h: int| 0 <= h < before.len() && h != me ==> #[trigger] after[h] == before[h]
        }),
{
}

/// What the floor's step says: a hart with work runs, one without halts when all is done, and
/// otherwise sleeps, for long only where nobody sleeps on the floor.
pub proof fn law_step_says_what_came(
    a: Floor,
    me: usize,
    busy: Seq<bool>,
    again: Seq<bool>,
    b: Floor,
    step: Step,
)
    requires
        a.wf(),
        me < a@.lanes.len(),
        busy.len() == a@.lanes.len(),
        again.len() == a@.lanes.len(),
        steps(a, me, busy, again, b, step),
    ensures
        step is Run <==> b@.lanes[me as int].running is Some,
        step matches Step::Run(d) ==> d.pa == b@.lanes[me as int].running->0.trap.pa,
        step is Halt ==> a.tie.pushed > 0 && a.tie.reaped == a.tie.pushed,
        step matches Step::Sleep { far } ==> (far <==> a@.blocked.len() == 0),
        b@.blocked == a@.blocked,
        b@.reaped == a@.reaped,
{
    let f = choose|f: Fetched| #[trigger]
        ran(a@.lanes, a.tie, me, busy, again, b@.lanes, b.tie, f) && step
            == crate::scheduler::step_of(f, a@.blocked.len() > 0);
    let lane = a@.lanes[me as int];
    assert(lane == a.lanes@[me as int]@);
    if lane.running is Some {
        assert(a.lanes@[me as int].wf());
        law_running_keeps_the_hart(a@.lanes, a.tie, me, busy, again, b@.lanes, b.tie, f);
    } else if lane.starved.len() > 0 {
        law_own_work_comes_first(a@.lanes, a.tie, me, busy, again, b@.lanes, b.tie, f);
    } else {
        law_idle_hart_robs(a@.lanes, a.tie, me, busy, again, b@.lanes, b.tie, f);
    }
}

/// What the hall's stride says: the same, and a hart that sleeps does so until the next
/// deadline, for nothing where that has passed, and for as long as it takes where there is none.
pub proof fn law_stride_says_what_came(
    a: Hall,
    me: usize,
    busy: Seq<bool>,
    again: Seq<bool>,
    next_tock: Option<u64>,
    now: u64,
    b: Hall,
    stride: Stride,
)
    requires
        a.wf(),
        me < a@.lanes.len(),
        busy.len() == a@.lanes.len(),
        again.len() == a@.lanes.len(),
        strides(a, me, busy, again, far(next_tock, now), b, stride),
    ensures
        stride is Run <==> b@.lanes[me as int].running is Some,
        stride matches Stride::Run(d) ==> d.pa == b@.lanes[me as int].running->0.trap.pa,
        stride is Halt ==> a.tie.pushed > 0 && a.tie.reaped == a.tie.pushed,
        stride matches Stride::Sleep { delta } ==> {
            &&& next_tock is None ==> delta == 0x1000_0000_0000_0000
            &&& next_tock matches Some(at) ==> (at > now ==> now + delta == at) && (at <= now
                ==> delta == 0)
        },
        b@.blocked == a@.blocked,
        b@.reaped == a@.reaped,
        b@.next_handle == a@.next_handle,
{
    let f = choose|f: Fetched| #[trigger]
        ran(a@.lanes, a.tie, me, busy, again, b@.lanes, b.tie, f) && stride
            == crate::room::scheduler::stride_of(f, far(next_tock, now));
    let lane = a@.lanes[me as int];
    assert(lane == a.lanes@[me as int]@);
    if lane.running is Some {
        assert(a.lanes@[me as int].wf());
        law_running_keeps_the_hart(a@.lanes, a.tie, me, busy, again, b@.lanes, b.tie, f);
    } else if lane.starved.len() > 0 {
        law_own_work_comes_first(a@.lanes, a.tie, me, busy, again, b@.lanes, b.tie, f);
    } else {
        law_idle_hart_robs(a@.lanes, a.tie, me, busy, again, b@.lanes, b.tie, f);
    }
}

/// A task that is admitted stands last in the hart's queue and last on its team's list, and is
/// counted; every waiting hart is called and nobody else.
pub proof fn law_admitted_is_queued_last(
    a: Floor,
    b: Floor,
    me: usize,
    task: Task,
    calls: Seq<crate::bits::Ipi>,
)
    requires
        me < a@.lanes.len(),
        task.team < a.teams@.len(),
        admitted(a, b, me, task, calls),
    ensures
        b@.lanes[me as int].starved == a@.lanes[me as int].starved.push(task),
        b@.lanes[me as int].running == a@.lanes[me as int].running,
        forall|h: int|
            0 <= h < a@.lanes.len() && h != me ==> #[trigger] b@.lanes[h] == a@.lanes[h],
        b.teams@[task.team as int].tasks@ == a.teams@[task.team as int].tasks@.push(task.id),
        b.tie.pushed == a.tie.pushed.wrapping_add(1),
        b.tie.reaped == a.tie.reaped,
        b@.blocked == a@.blocked,
        forall|h: int| #[trigger]
            a.tie.waiting.has(h) <==> exists|i: int|
                0 <= i < calls.len() && (#[trigger] calls[i]).reaches(h),
{
    let t = task.team as int;
    let x = crate::scheduler::lanes::rolls(a.teams@);
    let y = crate::scheduler::lanes::rolls(b.teams@);
    assert(y[t] == x[t].push(task.id));
    assert(x[t] == a.teams@[t].tasks@);
    assert(y[t] == b.teams@[t].tasks@);
}

/// Who goes to sleep leaves its hart, and sleeps until the time that it asked for, after those
/// that went before it.
pub proof fn law_sleep_leaves_the_hart(v: FloorView, me: int, wake_at: u64)
    requires
        0 <= me < v.lanes.len(),
        v.lanes[me].running is Some,
    ensures
        ({
            let w = dozed(v, me, wake_at);
            let t = v.lanes[me].running->0;
            &&& w.lanes[me].running is None
            &&& w.lanes[me].starved == v.lanes[me].starved
            &&& w.blocked.len() == v.blocked.len() + 1
            &&& w.blocked.drop_last() == v.blocked
            &&& w.blocked.last().id == t.id
            &&& w.blocked.last().team == t.team
            &&& w.blocked.last().trap == t.trap
            &&& w.blocked.last().state == (TaskState::Blocked {
                reason: BlockReason::Park { wake_at },
            })
            &&& w.reaped == v.reaped
        }),
{
    assert(dozed(v, me, wake_at).blocked.drop_last() =~= v.blocked);
}

/// The same in the hall, where a sleeper lies under a handle of its own.
pub proof fn law_bed_has_a_handle(v: HallView, me: int, at: u64)
    requires
        0 <= me < v.lanes.len(),
        v.lanes[me].running is Some,
        v.next_handle < u64::MAX,
    ensures
        ({
            let w = bedded(v, me, at);
            let t = v.lanes[me].running->0;
            &&& w.lanes[me].running is None
            &&& w.lanes[me].starved == v.lanes[me].starved
            &&& w.blocked.contains_key(v.next_handle)
            &&& w.blocked[v.next_handle].id == t.id
            &&& w.blocked[v.next_handle].team == t.team
            &&& w.blocked[v.next_handle].trap == t.trap
            &&& w.blocked[v.next_handle].state == (TaskState::Blocked {
                reason: BlockReason::Park { wake_at: at },
            })
            &&& w.next_handle == v.next_handle + 1
            &&& forall|k: u64|
                k != v.next_handle ==> #[trigger] w.blocked.contains_key(k)
                    == v.blocked.contains_key(k) && w.blocked[k] == v.blocked[k]
        }),
{
}

/// Whether `t` sleeps until a time that has come.
pub open spec fn overdue(t: Task, now: u64) -> bool {
    t.state matches TaskState::Blocked { reason: BlockReason::Park { wake_at } } && wake_at <= now
}

/// Those that are woken are those whose time has come, in the order in which they went to
/// sleep, and ready; those that sleep on are all others, in their order and as they were.
pub proof fn law_woken_are_those_due(s: Seq<Task>, now: u64)
    ensures
        woken(s, now) == s.filter(|t: Task| overdue(t, now)).map_values(
            |t: Task| Task { state: TaskState::Starved, ..t },
        ),
        sleeping(s, now) == s.filter(|t: Task| !overdue(t, now)),
    decreases s.len(),
{
    reveal(Seq::filter);
    let due = |t: Task| overdue(t, now);
    let ready = |t: Task| Task { state: TaskState::Starved, ..t };
    if s.len() > 0 {
        let rest = s.drop_last();
        law_woken_are_those_due(rest, now);
        if overdue(s.last(), now) {
            assert(rest.filter(due).push(s.last()).map_values(ready) =~= rest.filter(due).map_values(
                ready,
            ).push(ready(s.last())));
        }
        assert(woken(s, now) =~= s.filter(due).map_values(ready));
        assert(sleeping(s, now) =~= s.filter(|t: Task| !overdue(t, now)));
    } else {
        assert(woken(s, now) =~= s.filter(due).map_values(ready));
        assert(sleeping(s, now) =~= s.filter(|t: Task| !overdue(t, now)));
    }
}

/// Deadlines that have passed in the hall take their sleepers out of bed, each once, and put
/// them at the end of the hart's queue in the order of the deadlines, ready; all others sleep
/// on, and no other hart's queue changes.
pub proof fn law_due_sleepers_queue_up(v: HallView, me: int, due: Seq<u64>)
    requires
        0 <= me < v.lanes.len(),
        due.no_duplicates(),
    ensures
        ({
            let w = unparked(v, me, due);
            let there = due.filter(|k: u64| v.blocked.contains_key(k));
            &&& w.lanes.len() == v.lanes.len()
            &&& w.lanes[me].starved == v.lanes[me].starved + there.map_values(
                |k: u64| Task { state: TaskState::Starved, ..v.blocked[k] },
            )
            &&& w.lanes[me].running == v.lanes[me].running
            &&& w.next_handle == v.next_handle
            &&& w.reaped == v.reaped
        }),
        forall|k: u64| #[trigger]
            unparked(v, me, due).blocked.contains_key(k) <==> v.blocked.contains_key(k)
                && !due.contains(k),
        forall|k: u64|
            !due.contains(k) ==> #[trigger] unparked(v, me, due).blocked[k] == v.blocked[k],
        forall|h: int|
            0 <= h < v.lanes.len() && h != me ==> #[trigger] unparked(v, me, due).lanes[h]
                == v.lanes[h],
    decreases due.len(),
{
    reveal(Seq::filter);
    let p = |k: u64| v.blocked.contains_key(k);
    let ready = |k: u64| Task { state: TaskState::Starved, ..v.blocked[k] };
    if due.len() > 0 {
        let rest = due.drop_last();
        let k = due.last();
        assert(forall|i: int| 0 <= i < rest.len() ==> rest[i] == due[i]);
        assert(due[due.len() - 1] == k);
        law_due_sleepers_queue_up(v, me, rest);
        let w = unparked(v, me, rest);
        let u = unparked(v, me, due);
        assert forall|x: u64| #[trigger] due.contains(x) <==> rest.contains(x) || x == k by {
            if due.contains(x) {
                let i = choose|i: int| 0 <= i < due.len() && due[i] == x;
                if i < rest.len() {
                    assert(rest[i] == x);
                }
            }
            if rest.contains(x) {
                let i = choose|i: int| 0 <= i < rest.len() && rest[i] == x;
                assert(due[i] == x);
            }
        }
        assert(!rest.contains(k)) by {
            if rest.contains(k) {
                let i = choose|i: int| 0 <= i < rest.len() && rest[i] == k;
                assert(due[i] == due[due.len() - 1]);
            }
        }
        assert(w.blocked.contains_key(k) == v.blocked.contains_key(k));
        assert(w.blocked[k] == v.blocked[k]);
        if v.blocked.contains_key(k) {
            assert(rest.filter(p).push(k).map_values(ready) =~= rest.filter(p).map_values(ready).push(
                ready(k),
            ));
            assert(readied(w.blocked[k]) == ready(k));
        }
        assert(u.lanes[me].starved =~= v.lanes[me].starved + due.filter(p).map_values(ready));
        assert forall|x: u64| #[trigger] u.blocked.contains_key(x) <==> v.blocked.contains_key(x)
            && !due.contains(x) by {
            assert(w.blocked.contains_key(x) <==> v.blocked.contains_key(x) && !rest.contains(x));
        }
        assert forall|x: u64| !due.contains(x) implies #[trigger] u.blocked[x] == v.blocked[x] by {
            assert(w.blocked[x] == v.blocked[x]);
        }
        assert forall|h: int| 0 <= h < v.lanes.len() && h != me implies #[trigger] u.lanes[h]
            == v.lanes[h] by {
            assert(w.lanes[h] == v.lanes[h]);
        }
    } else {
        assert(v.lanes[me].starved =~= v.lanes[me].starved + due.filter(p).map_values(ready));
    }
}

/// There is work where somebody is ready or a deadline has passed, and nowhere else.
pub proof fn law_work_is_ready_or_due(v: HallView, next_tock: Option<u64>, now: u64)
    ensures
        work_there(v, next_tock, now) <==> (exists|h: int|
            0 <= h < v.lanes.len() && (#[trigger] v.lanes[h]).starved.len() > 0) || (next_tock
            is Some && next_tock->0 <= now),
{
}

/// Who ends leaves its hart, is among those that have ended, and is counted.
pub proof fn law_ending_is_counted(a: Floor, b: Floor, me: int)
    requires
        0 <= me < a@.lanes.len(),
        a@.lanes[me].running is Some,
        left(a, b, me),
    ensures
        b@.lanes[me].running is None,
        b@.lanes[me].starved == a@.lanes[me].starved,
        b@.reaped.len() == a@.reaped.len() + 1,
        b@.reaped.last().id == a@.lanes[me].running->0.id,
        b@.reaped.last().state == TaskState::Reaped,
        b@.reaped.drop_last() == a@.reaped,
        b@.blocked == a@.blocked,
        b.tie.reaped == a.tie.reaped.wrapping_add(1),
        b.tie.pushed == a.tie.pushed,
{
    assert(b@.reaped.drop_last() =~= a@.reaped);
}

/// Those that have ended are cleared away when a task runs next, and not before: of each the
/// space of its team and the place of its trap frame are given back, in order.
pub proof fn law_ended_are_sent_off(a: Floor, b: Floor, step: Step, gone: Seq<Remains>)
    requires
        sent_off(a, b, step, gone),
    ensures
        step is Run ==> {
            &&& b@.reaped.len() == 0
            &&& gone.len() == a@.reaped.len()
            &&& forall|i: int|
                0 <= i < gone.len() ==> (#[trigger] gone[i]).id == a@.reaped[i].id && gone[i].space
                    == a.teams@[a@.reaped[i].team as int].space && gone[i].va
                    == a@.reaped[i].trap.va
            &&& b@.lanes == a@.lanes
            &&& b@.blocked == a@.blocked
            &&& b.tie == a.tie
        },
        !(step is Run) ==> b == a && gone.len() == 0,
{
}

proof fn lemma_census_lane(lanes: Seq<Lane>, h: int, id: usize)
    requires
        0 <= h < lanes.len(),
        (lanes[h].running is Some && lanes[h].running->0.id == id) || exists|i: int|
            0 <= i < lanes[h].starved.len() && (#[trigger] lanes[h].starved[i]).id == id,
    ensures
        census_of(lanes).contains(id),
    decreases lanes.len(),
{
    let rest = lanes.drop_last();
    let l = lanes.last();
    let on = match l.running {
        Some(t) => seq![t.id],
        None => Seq::empty(),
    };
    let before = census_of(rest);
    let queue = crate::scheduler::lanes::ids_of(l.starved);
    let all = before + on + queue;
    if h == lanes.len() - 1 {
        if l.running is Some && l.running->0.id == id {
            assert(all[before.len() as int] == id);
        } else {
            let i = choose|i: int| 0 <= i < l.starved.len() && (#[trigger] l.starved[i]).id == id;
            assert(queue[i] == id);
            assert(all[before.len() + on.len() + i] == id);
        }
    } else {
        assert(rest[h] == lanes[h]);
        lemma_census_lane(rest, h, id);
        let j = choose|j: int| 0 <= j < before.len() && before[j] == id;
        assert(all[j] == id);
    }
}

/// The census has everybody who runs on a hart or stands in a queue.
pub proof fn law_census_misses_nobody(lanes: Seq<Lane>, h: int, i: int)
    requires
        0 <= h < lanes.len(),
    ensures
        lanes[h].running is Some ==> census_of(lanes).contains(lanes[h].running->0.id),
        0 <= i < lanes[h].starved.len() ==> census_of(lanes).contains(lanes[h].starved[i].id),
{
    if lanes[h].running is Some {
        lemma_census_lane(lanes, h, lanes[h].running->0.id);
    }
    if 0 <= i < lanes[h].starved.len() {
        lemma_census_lane(lanes, h, lanes[h].starved[i].id);
    }
}

/// The census has nobody else.
pub proof fn law_census_has_nobody_else(lanes: Seq<Lane>, id: usize)
    requires
        census_of(lanes).contains(id),
    ensures
        exists|h: int|
            0 <= h < lanes.len() && (((#[trigger] lanes[h]).running is Some
                && lanes[h].running->0.id == id) || exists|i: int|
                0 <= i < lanes[h].starved.len() && (#[trigger] lanes[h].starved[i]).id == id),
    decreases lanes.len(),
{
    if lanes.len() > 0 {
        let rest = lanes.drop_last();
        let l = lanes.last();
        let on = match l.running {
            Some(t) => seq![t.id],
            None => Seq::empty(),
        };
        let before = census_of(rest);
        let queue = crate::scheduler::lanes::ids_of(l.starved);
        let all = before + on + queue;
        let j = choose|j: int| 0 <= j < all.len() && all[j] == id;
        if j < before.len() {
            assert(before[j] == id);
            law_census_has_nobody_else(rest, id);
            let h = choose|h: int|
                0 <= h < rest.len() && (((#[trigger] rest[h]).running is Some
                    && rest[h].running->0.id == id) || exists|i: int|
                    0 <= i < rest[h].starved.len() && (#[trigger] rest[h].starved[i]).id == id);
            assert(lanes[h] == rest[h]);
        } else {
            assert(lanes[lanes.len() - 1] == l);
            if j < before.len() + on.len() {
                assert(on[j - before.len()] == id);
            } else {
                let i = j - before.len() - on.len();
                assert(queue[i] == id);
                assert(l.starved[i].id == id);
            }
        }
    }
}

/// Clearing away takes those that have ended off the lists of their teams and leaves everybody
/// who lives on the list where it was; nobody comes on a list by it.
pub proof fn law_clearing_spares_the_living(
    lists: Seq<Seq<usize>>,
    dead: Seq<Task>,
    alive: Seq<usize>,
    t: int,
    x: usize,
)
    requires
        0 <= t < lists.len(),
        forall|i: int| 0 <= i < dead.len() ==> (#[trigger] dead[i]).team < lists.len(),
    ensures
        cleared(lists, dead, alive).len() == lists.len(),
        cleared(lists, dead, alive)[t].contains(x) ==> lists[t].contains(x),
        lists[t].contains(x) && alive.contains(x) && (forall|i: int|
            0 <= i < dead.len() ==> (#[trigger] dead[i]).id != x) ==> cleared(
            lists,
            dead,
            alive,
        )[t].contains(x),
        forall|i: int|
            0 <= i < dead.len() && (#[trigger] dead[i]).team == t && dead[i].id == x ==> !cleared(
                lists,
                dead,
                alive,
            )[t].contains(x),
    decreases dead.len(),
{
    if dead.len() > 0 {
        let z = dead[0];
        let rest = dead.subrange(1, dead.len() as int);
        let others = alive + crate::scheduler::lanes::ids_of(rest);
        let after = lists.update(z.team as int, pruned(lists[z.team as int], others, z.id));
        assert(forall|i: int| 0 <= i < rest.len() ==> rest[i] == dead[i + 1]);
        law_prune(lists[t], others, z.id, x);
        law_clearing_spares_the_living(after, rest, alive, t, x);
        if alive.contains(x) {
            let i = choose|i: int| 0 <= i < alive.len() && alive[i] == x;
            assert(others[i] == x);
        }
        assert forall|i: int|
            0 <= i < dead.len() && (#[trigger] dead[i]).team == t && dead[i].id == x implies !cleared(
            lists,
            dead,
            alive,
        )[t].contains(x) by {
            if i > 0 {
                assert(rest[i - 1] == dead[i]);
            }
        }
    }
}

/// What is given back of those that have ended: one piece for each, in order, with its number,
/// the space of its team and the place of its trap frame.
pub proof fn law_remains_are_of_the_ended(dead: Seq<Task>, teams: Seq<Team>)
    ensures
        all_remains(dead, teams).len() == dead.len(),
        forall|i: int|
            0 <= i < dead.len() ==> (#[trigger] all_remains(dead, teams)[i]).id == dead[i].id
                && all_remains(dead, teams)[i].space == teams[dead[i].team as int].space
                && all_remains(dead, teams)[i].va == dead[i].trap.va,
{
}

/// Who ends in the hall is cleared away with all that ended before, itself last, and is
/// counted.
pub proof fn law_burial_clears_all(a: Hall, b: Hall, me: int, gone: Seq<Remains>)
    requires
        0 <= me < a@.lanes.len(),
        a@.lanes[me].running is Some,
        buried(a, b, me, gone),
    ensures
        b@.lanes[me].running is None,
        b@.lanes[me].starved == a@.lanes[me].starved,
        b@.reaped.len() == 0,
        b@.blocked == a@.blocked,
        gone.len() == a@.reaped.len() + 1,
        gone.last().id == a@.lanes[me].running->0.id,
        gone.last().va == a@.lanes[me].running->0.trap.va,
        gone.last().space == a.teams@[a@.lanes[me].running->0.team as int].space,
        b.tie.reaped == a.tie.reaped.wrapping_add(1),
        b.tie.pushed == a.tie.pushed,
{
}

/// All is done when there was something to do and as many tasks have ended as were queued.
pub proof fn law_done_when_all_ended(tie: Tie)
    ensures
        is_done(tie) <==> tie.pushed > 0 && tie.pushed == tie.reaped,
{
}

/// The report shows each place of a hart's queue at which a task of this number stands, in
/// order, and no other.
pub proof fn law_report_shows_each_place(s: Seq<Task>, hart: usize, id: usize, n: Note)
    requires
        s.len() <= usize::MAX,
    ensures
        queue_notes(s, hart, id).contains(n) <==> exists|i: int|
            0 <= i < s.len() && (#[trigger] s[i]).id == id && n == (Note::Starved {
                hart,
                at: i as usize,
            }),
    decreases s.len(),
{
    if s.len() > 0 {
        let rest = s.drop_last();
        law_report_shows_each_place(rest, hart, id, n);
        let before = queue_notes(rest, hart, id);
        let all = queue_notes(s, hart, id);
        let last = s.len() - 1;
        if all.contains(n) {
            let j = choose|j: int| 0 <= j < all.len() && all[j] == n;
            if j < before.len() {
                assert(before[j] == n);
                let i = choose|i: int|
                    0 <= i < rest.len() && (#[trigger] rest[i]).id == id && n == (Note::Starved {
                        hart,
                        at: i as usize,
                    });
                assert(s[i] == rest[i]);
            } else {
                assert(s[last].id == id);
            }
        }
        if exists|i: int|
            0 <= i < s.len() && (#[trigger] s[i]).id == id && n == (Note::Starved {
                hart,
                at: i as usize,
            }) {
            let i = choose|i: int|
                0 <= i < s.len() && (#[trigger] s[i]).id == id && n == (Note::Starved {
                    hart,
                    at: i as usize,
                });
            if i < last {
                assert(rest[i].id == id);
                let j = choose|j: int| 0 <= j < before.len() && before[j] == n;
                assert(all[j] == n);
            } else {
                assert(all[before.len() as int] == n);
            }
        }
    }
}

/// The ways that a task can go: it runs only when it was ready; it becomes ready, waits or ends
/// only from running, or becomes ready from waiting.
pub proof fn law_ways_of_a_task(a: TaskState, b: TaskState)
    ensures
        legal(a, b) && b is Running ==> a is Starved,
        legal(a, b) && b is Starved ==> a is Running || a is Blocked,
        legal(a, b) && b is Blocked ==> a is Running,
        legal(a, b) && b is Reaped ==> a is Running,
        a is Starved && b is Running ==> legal(a, b),
        a is Running && !(b is Running) ==> legal(a, b),
        a is Blocked && b is Starved ==> legal(a, b),
        a is Reaped ==> !legal(a, b),
{
}

/// As many are taken out of bed as there are sleepers under the deadlines that have passed.
pub proof fn law_risers_are_counted(v: HallView, me: int, due: Seq<u64>)
    requires
        0 <= me < v.lanes.len(),
        due.no_duplicates(),
    ensures
        risers(v, me, due) == due.filter(|k: u64| v.blocked.contains_key(k)).len(),
    decreases due.len(),
{
    reveal(Seq::filter);
    if due.len() > 0 {
        let rest = due.drop_last();
        assert(forall|i: int| 0 <= i < rest.len() ==> rest[i] == due[i]);
        law_risers_are_counted(v, me, rest);
        law_due_sleepers_queue_up(v, me, rest);
        let k = due.last();
        assert(!rest.contains(k)) by {
            if rest.contains(k) {
                let i = choose|i: int| 0 <= i < rest.len() && rest[i] == k;
                assert(due[i] == due[due.len() - 1]);
            }
        }
        assert(unparked(v, me, rest).blocked.contains_key(k) == v.blocked.contains_key(k));
    }
}

/// The report of a hart says first who runs on it, or that nobody does, and whether that is the
/// one that is sought; of a locked hart it says that and nothing else.
pub proof fn law_report_says_who_runs(l: Lane, own: bool, locked: bool, id: usize)
    ensures
        locked ==> lane_notes(l, own, locked, id) == seq![Note::Locked { hart: l.hart, own }],
        !locked ==> lane_notes(l, own, locked, id).len() == 1 + queue_notes(
            l.starved,
            l.hart,
            id,
        ).len(),
        !locked && l.running is None ==> lane_notes(l, own, locked, id)[0] == (Note::Vacant {
            hart: l.hart,
            own,
        }),
        !locked ==> (l.running matches Some(t) ==> lane_notes(l, own, locked, id)[0]
            == (Note::Running { hart: l.hart, own, id: t.id, hit: t.id == id })),
{
}

/// The report of those that have ended counts them and shows each, and whether it is the one
/// that is sought.
pub proof fn law_report_shows_the_ended(s: Seq<Task>, id: usize, i: int)
    requires
        s.len() <= usize::MAX,
        0 <= i < s.len(),
    ensures
        husk_notes(s, true, id) == seq![Note::ReapedLocked],
        husk_notes(s, false, id).len() == s.len() + 1,
        husk_notes(s, false, id)[0] == Note::ReapedCount(s.len() as usize),
        husk_notes(s, false, id)[i + 1] == (Note::Reaped {
            at: i as usize,
            id: s[i].id,
            hit: s[i].id == id,
        }),
{
}

} // verus!
