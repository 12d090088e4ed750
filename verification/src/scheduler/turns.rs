//! Turns of the ready tasks of a hart: each has its time slice, in the order of the queue.
//!
//! What a call of `run` does to a hart with a running task is one timer tick. The laws follow
//! such a hart over any number of calls, on a floor and in a hall.
use vstd::prelude::*;
use crate::room::scheduler::{Hall, Stride};
use crate::room::scheduler::{stride_of, strides};
use crate::scheduler::lanes::Fetched;
use crate::scheduler::lanes::ran;
use crate::scheduler::{Floor, Lane, Step, TIME_SLICE};
use crate::scheduler::{prepared, readied, step_of, steps};
use crate::task::{Task, TaskState};

verus! {

/// A hart after `k` timer ticks.
pub open spec fn ticked_times(l: Lane, k: nat) -> Lane
    decreases k,
{
    if k == 0 {
        l
    } else {
        ticked_times(l, (k - 1) as nat).ticked()
    }
}

/// Whether the hart runs a task that has something left of its time slice.
pub open spec fn busy(l: Lane) -> bool {
    l.running is Some && l.running->0.state is Running && l.running->0.state->ticks_left >= 1
}

/// How many ticks the running task of the hart has left.
pub open spec fn left(l: Lane) -> nat {
    l.running->0.state->ticks_left as nat
}

/// A task without what changes when it comes on or goes off.
pub open spec fn face(t: Task) -> Task {
    Task { state: TaskState::Starved, kernel_sp: 0, ..t }
}

/// Each of `s` without what changes when it comes on or goes off.
pub open spec fn faces(s: Seq<Task>) -> Seq<Task> {
    s.map_values(|t: Task| face(t))
}

/// A task keeps its hart for what is left of its time slice: so many ticks in, nothing has
/// changed but what is left of it.
pub proof fn law_time_slice(l: Lane, k: nat)
    requires
        busy(l),
        k < left(l),
    ensures
        ticked_times(l, k) == (Lane {
            running: Some(
                Task {
                    state: TaskState::Running { ticks_left: (left(l) - k) as u32 },
                    ..l.running->0
                },
            ),
            ..l
        }),
    decreases k,
{
    if k > 0 {
        law_time_slice(l, (k - 1) as nat);
    }
}

proof fn lemma_ticks_add(l: Lane, a: nat, b: nat)
    ensures
        ticked_times(l, a + b) == ticked_times(ticked_times(l, a), b),
    decreases b,
{
    if b > 0 {
        lemma_ticks_add(l, a, (b - 1) as nat);
        assert((a + b - 1) as nat == a + (b - 1) as nat);
    }
}

/// When the slice is over, the first of the queue runs and who ran stands last.
proof fn lemma_slice_over(l: Lane)
    requires
        busy(l),
        l.starved.len() > 0,
    ensures
        ({
            let m = ticked_times(l, left(l));
            &&& m.running == Some(prepared(l.starved[0], l.top))
            &&& m.top == l.top
            &&& m.starved == l.starved.skip(1).push(readied(l.running->0))
        }),
{
    law_time_slice(l, (left(l) - 1) as nat);
    let last = ticked_times(l, (left(l) - 1) as nat);
    assert(ticked_times(l, left(l)) == last.ticked());
    assert(last.ticked() == last.rotated());
    assert(last.rotated().starved =~= l.starved.skip(1).push(readied(l.running->0)));
}

/// Every ready task has its turn, and it is known when: the one at place `i` of the queue comes
/// on when what is left of the running task's slice and `i` whole slices are over, and those
/// before it stand behind it then.
pub proof fn law_turn_of_each(l: Lane, i: nat)
    requires
        busy(l),
        i < l.starved.len(),
    ensures
        ({
            let m = ticked_times(l, left(l) + i * TIME_SLICE as nat);
            &&& m.running == Some(prepared(l.starved[i as int], l.top))
            &&& m.top == l.top
            &&& faces(m.starved) == faces(l.starved).skip(i as int + 1).push(face(l.running->0)) + faces(
                l.starved,
            ).take(i as int)
            &&& m.starved.len() == l.starved.len()
            &&& forall|j: int| i < j < l.starved.len() ==> m.starved[j - i - 1] == l.starved[j]
        }),
    decreases i,
{
    let q = l.starved;
    let n = TIME_SLICE as nat;
    if i == 0 {
        lemma_slice_over(l);
        let m = ticked_times(l, left(l));
        assert(faces(m.starved) =~= faces(q).skip(1).push(face(l.running->0)) + faces(q).take(0));
    } else {
        let a = left(l) + ((i - 1) as nat) * n;
        law_turn_of_each(l, (i - 1) as nat);
        let w = ticked_times(l, a);
        lemma_slice_over(w);
        lemma_ticks_add(l, a, n);
        assert(a + n == left(l) + i * n);
        assert(w.starved[0] == q[i as int]);
        let m = ticked_times(l, left(l) + i * n);
        assert(faces(m.starved) =~= faces(w.starved).skip(1).push(face(w.running->0)));
        assert(face(w.running->0) == faces(q)[i - 1]);
        assert(faces(w.starved).skip(1).push(faces(q)[i - 1]) =~= faces(q).skip(i as int + 1).push(
            face(l.running->0),
        ) + faces(q).take(i as int));
        assert forall|j: int| i < j < q.len() implies m.starved[j - i - 1] == q[j] by {
            assert(w.starved[j - i] == q[j]);
        }
    }
}

/// Who runs after `n` ticks, as long as the first round lasts.
pub open spec fn runner(l: Lane, n: nat) -> Task {
    if n < left(l) {
        l.running->0
    } else {
        l.starved[(n - left(l)) / TIME_SLICE as int]
    }
}

/// Until every ready task has had its turn, it is known after every tick who runs: the running
/// task for what is left of its slice, and then one after the other for a whole slice each.
pub proof fn law_who_runs(l: Lane, n: nat)
    requires
        busy(l),
        n < left(l) + l.starved.len() * TIME_SLICE as nat,
    ensures
        ticked_times(l, n).running is Some,
        face(ticked_times(l, n).running->0) == face(runner(l, n)),
{
    if n < left(l) {
        law_time_slice(l, n);
    } else {
        let d = TIME_SLICE as int;
        let i = (n - left(l)) / d;
        let k = (n - left(l)) % d;
        assert(0 <= i < l.starved.len() && 0 <= k < d && n == left(l) + i * d + k);
        law_turn_of_each(l, i as nat);
        let w = ticked_times(l, left(l) + (i as nat) * TIME_SLICE as nat);
        law_time_slice(w, k as nat);
        lemma_ticks_add(l, left(l) + (i as nat) * TIME_SLICE as nat, k as nat);
    }
}

/// One call of a hall's `run`: what it found, what it left, and what it gave.
pub struct HallCall {
    pub before: Hall,
    pub busy: Seq<bool>,
    pub again: Seq<bool>,
    pub delta: u64,
    pub after: Hall,
    pub stride: Stride,
}

/// Whether `calls` are calls of a hall's `run` on hart `me`, one after the other, between which
/// nobody touches what the hart has.
pub open spec fn hall_runs(calls: Seq<HallCall>, me: usize) -> bool {
    &&& forall|i: int|
        0 <= i < calls.len() ==> {
            let c = #[trigger] calls[i];
            me < c.before@.lanes.len() && strides(
                c.before,
                me,
                c.busy,
                c.again,
                c.delta,
                c.after,
                c.stride,
            )
        }
    &&& forall|i: int|
        0 < i < calls.len() ==> (#[trigger] calls[i]).before@.lanes[me as int] == calls[i
            - 1].after@.lanes[me as int]
}

proof fn lemma_hall_ticks(calls: Seq<HallCall>, me: usize, i: int)
    requires
        hall_runs(calls, me),
        0 <= i < calls.len(),
        busy(calls[0].before@.lanes[me as int]),
        i < left(calls[0].before@.lanes[me as int]) + calls[0].before@.lanes[me as int].starved.len()
            * TIME_SLICE as nat,
    ensures
        ({
            let l = calls[0].before@.lanes[me as int];
            &&& calls[i].before@.lanes[me as int] == ticked_times(l, i as nat)
            &&& calls[i].after@.lanes[me as int] == ticked_times(l, (i + 1) as nat)
            &&& calls[i].stride is Run
            &&& calls[i].stride->Run_0.pa == ticked_times(l, (i + 1) as nat).running->0.trap.pa
        }),
    decreases i,
{
    let l = calls[0].before@.lanes[me as int];
    if i > 0 {
        lemma_hall_ticks(calls, me, i - 1);
    }
    law_who_runs(l, i as nat);
    let c = calls[i];
    let f = choose|f: Fetched| #[trigger]
        ran(c.before@.lanes, c.before.tie, me, c.busy, c.again, c.after@.lanes, c.after.tie, f)
            && c.stride == stride_of(f, c.delta);
    assert(ticked_times(l, (i + 1) as nat) == ticked_times(l, i as nat).ticked());
}

/// Strict turns in a hall: where a hart runs a task with so much left of its slice, the call of
/// `run` that ends that and `i` whole slices gives the frame of the ready task at place `i`, and
/// every call before gives the frame of the running task or of one that stands before it.
pub proof fn law_hall_takes_turns(calls: Seq<HallCall>, me: usize, i: nat)
    requires
        hall_runs(calls, me),
        calls.len() > 0,
        busy(calls[0].before@.lanes[me as int]),
        i < calls[0].before@.lanes[me as int].starved.len(),
        left(calls[0].before@.lanes[me as int]) + i * TIME_SLICE as nat <= calls.len(),
    ensures
        ({
            let l = calls[0].before@.lanes[me as int];
            let n = left(l) + i * TIME_SLICE as nat;
            &&& calls[n - 1].stride is Run
            &&& calls[n - 1].stride->Run_0.pa == l.starved[i as int].trap.pa
            &&& forall|m: int|
                0 <= m < n - 1 ==> (#[trigger] calls[m]).stride is Run && calls[m].stride->Run_0.pa
                    == runner(l, (m + 1) as nat).trap.pa
            &&& l.running->0.trap.pa != l.starved[i as int].trap.pa && (forall|j: int|
                0 <= j < i ==> (#[trigger] l.starved[j]).trap.pa != l.starved[i as int].trap.pa)
                ==> forall|m: int|
                0 <= m < n - 1 ==> (#[trigger] calls[m]).stride->Run_0.pa
                    != l.starved[i as int].trap.pa
        }),
{
    let l = calls[0].before@.lanes[me as int];
    let d = TIME_SLICE as nat;
    let n = left(l) + i * d;
    assert((i + 1) * d <= l.starved.len() * d) by (nonlinear_arith)
        requires
            i < l.starved.len(),
    ;
    assert((i + 1) * d == i * d + d) by (nonlinear_arith);
    assert forall|m: int| 0 <= m < n implies (#[trigger] calls[m]).stride is Run
        && calls[m].stride->Run_0.pa == runner(l, (m + 1) as nat).trap.pa by {
        lemma_hall_ticks(calls, me, m);
        law_who_runs(l, (m + 1) as nat);
        let r = ticked_times(l, (m + 1) as nat).running->0;
        assert(face(r).trap == r.trap);
        assert(face(runner(l, (m + 1) as nat)).trap == runner(l, (m + 1) as nat).trap);
    }
    assert(calls[n - 1].stride is Run);
    lemma_place(left(l), i, n);
    assert(runner(l, n) == l.starved[i as int]);
    let mine = l.starved[i as int].trap.pa;
    if l.running->0.trap.pa != mine && forall|j: int|
        0 <= j < i ==> (#[trigger] l.starved[j]).trap.pa != mine {
        assert forall|m: int| 0 <= m < n - 1 implies (#[trigger] calls[m]).stride->Run_0.pa
            != mine by {
            if m + 1 >= left(l) {
                let j = (m + 1 - left(l)) / TIME_SLICE as int;
                assert(0 <= j < i);
                assert(runner(l, (m + 1) as nat) == l.starved[j]);
            }
        }
    }
}

proof fn lemma_place(t: nat, i: nat, n: nat)
    requires
        n == t + i * TIME_SLICE as nat,
    ensures
        (n - t) / TIME_SLICE as int == i,
{
}

/// One call of a floor's `run`: what it found, what it left, and what it gave.
pub struct FloorCall {
    pub before: Floor,
    pub busy: Seq<bool>,
    pub again: Seq<bool>,
    pub after: Floor,
    pub step: Step,
}

/// Whether `calls` are calls of a floor's `run` on hart `me`, one after the other, between which
/// nobody touches what the hart has.
pub open spec fn floor_runs(calls: Seq<FloorCall>, me: usize) -> bool {
    &&& forall|i: int|
        0 <= i < calls.len() ==> {
            let c = #[trigger] calls[i];
            me < c.before@.lanes.len() && steps(c.before, me, c.busy, c.again, c.after, c.step)
        }
    &&& forall|i: int|
        0 < i < calls.len() ==> (#[trigger] calls[i]).before@.lanes[me as int] == calls[i
            - 1].after@.lanes[me as int]
}

proof fn lemma_floor_ticks(calls: Seq<FloorCall>, me: usize, i: int)
    requires
        floor_runs(calls, me),
        0 <= i < calls.len(),
        busy(calls[0].before@.lanes[me as int]),
        i < left(calls[0].before@.lanes[me as int]) + calls[0].before@.lanes[me as int].starved.len()
            * TIME_SLICE as nat,
    ensures
        ({
            let l = calls[0].before@.lanes[me as int];
            &&& calls[i].before@.lanes[me as int] == ticked_times(l, i as nat)
            &&& calls[i].after@.lanes[me as int] == ticked_times(l, (i + 1) as nat)
            &&& calls[i].step is Run
            &&& calls[i].step->Run_0.pa == ticked_times(l, (i + 1) as nat).running->0.trap.pa
        }),
    decreases i,
{
    let l = calls[0].before@.lanes[me as int];
    if i > 0 {
        lemma_floor_ticks(calls, me, i - 1);
    }
    law_who_runs(l, i as nat);
    let c = calls[i];
    let f = choose|f: Fetched| #[trigger]
        ran(c.before@.lanes, c.before.tie, me, c.busy, c.again, c.after@.lanes, c.after.tie, f)
            && c.step == step_of(f, c.before@.blocked.len() > 0);
    assert(ticked_times(l, (i + 1) as nat) == ticked_times(l, i as nat).ticked());
}

/// Strict turns on a floor: as [`law_hall_takes_turns`] says it of a hall.
pub proof fn law_floor_takes_turns(calls: Seq<FloorCall>, me: usize, i: nat)
    requires
        floor_runs(calls, me),
        calls.len() > 0,
        busy(calls[0].before@.lanes[me as int]),
        i < calls[0].before@.lanes[me as int].starved.len(),
        left(calls[0].before@.lanes[me as int]) + i * TIME_SLICE as nat <= calls.len(),
    ensures
        ({
            let l = calls[0].before@.lanes[me as int];
            let n = left(l) + i * TIME_SLICE as nat;
            &&& calls[n - 1].step is Run
            &&& calls[n - 1].step->Run_0.pa == l.starved[i as int].trap.pa
            &&& forall|m: int|
                0 <= m < n - 1 ==> (#[trigger] calls[m]).step is Run && calls[m].step->Run_0.pa
                    == runner(l, (m + 1) as nat).trap.pa
            &&& l.running->0.trap.pa != l.starved[i as int].trap.pa && (forall|j: int|
                0 <= j < i ==> (#[trigger] l.starved[j]).trap.pa != l.starved[i as int].trap.pa)
                ==> forall|m: int|
                0 <= m < n - 1 ==> (#[trigger] calls[m]).step->Run_0.pa
                    != l.starved[i as int].trap.pa
        }),
{
    let l = calls[0].before@.lanes[me as int];
    let d = TIME_SLICE as nat;
    let n = left(l) + i * d;
    assert((i + 1) * d <= l.starved.len() * d) by (nonlinear_arith)
        requires
            i < l.starved.len(),
    ;
    assert((i + 1) * d == i * d + d) by (nonlinear_arith);
    assert forall|m: int| 0 <= m < n implies (#[trigger] calls[m]).step is Run
        && calls[m].step->Run_0.pa == runner(l, (m + 1) as nat).trap.pa by {
        lemma_floor_ticks(calls, me, m);
        law_who_runs(l, (m + 1) as nat);
        let r = ticked_times(l, (m + 1) as nat).running->0;
        assert(face(r).trap == r.trap);
        assert(face(runner(l, (m + 1) as nat)).trap == runner(l, (m + 1) as nat).trap);
    }
    assert(calls[n - 1].step is Run);
    lemma_place(left(l), i, n);
    assert(runner(l, n) == l.starved[i as int]);
    let mine = l.starved[i as int].trap.pa;
    if l.running->0.trap.pa != mine && forall|j: int|
        0 <= j < i ==> (#[trigger] l.starved[j]).trap.pa != mine {
        assert forall|m: int| 0 <= m < n - 1 implies (#[trigger] calls[m]).step->Run_0.pa
            != mine by {
            if m + 1 >= left(l) {
                let j = (m + 1 - left(l)) / TIME_SLICE as int;
                assert(0 <= j < i);
                assert(runner(l, (m + 1) as nat) == l.starved[j]);
            }
        }
    }
}

} // verus!
