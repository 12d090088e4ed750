//! Turns of the ready tasks of a hart in a room: each has its quantum, in the order of the queue.
//!
//! What a call of [`crate::room::scheduler::trap::run`] does to a hart with a running task is
//! one timer tick. The laws follow such a hart over any number of calls.
use vstd::prelude::*;
use crate::room::RoomView;
use crate::room::scheduler::hart::QUANTUM_TICKS;

verus! {

/// The room after `k` timer ticks on hart `h`.
pub open spec fn ticked_times(v: RoomView, h: int, k: nat) -> RoomView
    decreases k,
{
    if k == 0 {
        v
    } else {
        ticked_times(v, h, (k - 1) as nat).ticked(h)
    }
}

proof fn lemma_ticks_add(v: RoomView, h: int, a: nat, b: nat)
    ensures
        ticked_times(v, h, a + b) == ticked_times(ticked_times(v, h, a), h, b),
    decreases b,
{
    if b > 0 {
        lemma_ticks_add(v, h, a, (b - 1) as nat);
        assert((a + b - 1) as nat == a + (b - 1) as nat);
    }
}

/// Ticks change nobody's identity.
proof fn lemma_ticks_keep_idents(v: RoomView, h: int, k: nat, x: usize)
    ensures
        ticked_times(v, h, k).tasks[x].ident == v.tasks[x].ident,
    decreases k,
{
    if k > 0 {
        lemma_ticks_keep_idents(v, h, (k - 1) as nat, x);
    }
}

/// Whether the task `id` runs on hart `h` with `t` ticks left of its quantum.
pub open spec fn runs_for(v: RoomView, h: int, id: usize, t: nat) -> bool {
    &&& v.lanes[h].running == Some(id)
    &&& v.tasks[id].state is Running
    &&& v.tasks[id].state->ticks_left == t
}

/// A task keeps its hart for what is left of its quantum: so many ticks in, nothing has changed
/// on any hart, and so much less is left.
pub proof fn law_quantum_is_kept(v: RoomView, h: int, id: usize, t: nat, k: nat)
    requires
        0 <= h < v.lanes.len(),
        runs_for(v, h, id, t),
        k < t,
    ensures
        ticked_times(v, h, k).lanes == v.lanes,
        runs_for(ticked_times(v, h, k), h, id, (t - k) as nat),
    decreases k,
{
    if k > 0 {
        law_quantum_is_kept(v, h, id, t, (k - 1) as nat);
    }
    assert(ticked_times(v, h, k).lanes =~= v.lanes);
}

proof fn lemma_one_turn(v: RoomView, h: int, id: usize, t: nat)
    requires
        0 <= h < v.lanes.len(),
        runs_for(v, h, id, t),
        t > 0,
        v.lanes[h].queue.len() > 0,
    ensures
        ({
            let w = ticked_times(v, h, t);
            &&& w.lanes.len() == v.lanes.len()
            &&& runs_for(w, h, v.lanes[h].queue[0], QUANTUM_TICKS as nat)
            &&& w.lanes[h].queue == v.lanes[h].queue.drop_first().push(id)
        }),
{
    law_quantum_is_kept(v, h, id, t, (t - 1) as nat);
    let last = ticked_times(v, h, (t - 1) as nat);
    assert(ticked_times(v, h, t) == last.ticked(h));
}

/// Every ready task has its turn, and it is known when: the one at place `i` of the queue comes
/// on when what is left of the running task's quantum and `i` whole quanta are over, and those
/// before it stand behind it then.
pub proof fn law_turn_of_each(v: RoomView, h: int, id: usize, t: nat, i: nat)
    requires
        0 <= h < v.lanes.len(),
        runs_for(v, h, id, t),
        t > 0,
        i < v.lanes[h].queue.len(),
    ensures
        ({
            let w = ticked_times(v, h, t + i * QUANTUM_TICKS as nat);
            let queue = v.lanes[h].queue;
            &&& w.lanes.len() == v.lanes.len()
            &&& runs_for(w, h, queue[i as int], QUANTUM_TICKS as nat)
            &&& w.lanes[h].queue == queue.skip(i as int + 1).push(id) + queue.take(i as int)
        }),
    decreases i,
{
    let queue = v.lanes[h].queue;
    let n = QUANTUM_TICKS as nat;
    if i == 0 {
        lemma_one_turn(v, h, id, t);
        assert(queue.drop_first().push(id) =~= queue.skip(1).push(id) + queue.take(0));
    } else {
        let a = t + ((i - 1) as nat) * n;
        law_turn_of_each(v, h, id, t, (i - 1) as nat);
        let w = ticked_times(v, h, a);
        lemma_one_turn(w, h, queue[i - 1], n);
        lemma_ticks_add(v, h, a, n);
        assert(a + n == t + i * n);
        assert(w.lanes[h].queue[0] == queue[i as int]);
        assert(w.lanes[h].queue.drop_first().push(queue[i - 1]) =~= queue.skip(
            i as int + 1,
        ).push(id) + queue.take(i as int));
    }
}

/// Who runs on hart `h` after `n` ticks, where `id` has `t` ticks left, as long as the first
/// round lasts.
pub open spec fn runner(v: RoomView, h: int, id: usize, t: nat, n: nat) -> usize {
    if n < t {
        id
    } else {
        v.lanes[h].queue[(n - t) / QUANTUM_TICKS as int]
    }
}

/// Until every ready task has had its turn, it is known after every tick who runs: the running
/// task for what is left of its quantum, and then one after the other for a whole quantum each.
pub proof fn law_who_runs(v: RoomView, h: int, id: usize, t: nat, n: nat)
    requires
        0 <= h < v.lanes.len(),
        runs_for(v, h, id, t),
        t > 0,
        n < t + v.lanes[h].queue.len() * QUANTUM_TICKS as nat,
    ensures
        ticked_times(v, h, n).lanes[h].running == Some(runner(v, h, id, t, n)),
{
    if n < t {
        law_quantum_is_kept(v, h, id, t, n);
    } else {
        let d = QUANTUM_TICKS as int;
        let i = (n - t) / d;
        let k = (n - t) % d;
        assert(0 <= i < v.lanes[h].queue.len() && 0 <= k < d && n == t + i * d + k);
        let a = t + (i as nat) * QUANTUM_TICKS as nat;
        law_turn_of_each(v, h, id, t, i as nat);
        law_quantum_is_kept(
            ticked_times(v, h, a),
            h,
            v.lanes[h].queue[i],
            QUANTUM_TICKS as nat,
            k as nat,
        );
        lemma_ticks_add(v, h, a, k as nat);
    }
}

/// Whether the task `x` is on hart `h` or in its queue.
pub open spec fn belongs(v: RoomView, h: int, x: usize) -> bool {
    v.lanes[h].running == Some(x) || v.lanes[h].queue.contains(x)
}

/// Whether hart `h` has the same in `b` as in `a`, and its tasks are as they were.
pub open spec fn untouched(a: RoomView, b: RoomView, h: int) -> bool {
    &&& 0 <= h < b.lanes.len()
    &&& b.lanes[h] == a.lanes[h]
    &&& forall|x: usize| #[trigger] belongs(a, h, x) ==> b.tasks[x] == a.tasks[x]
}

/// One call of [`crate::room::scheduler::trap::run`]: what it found, what it left, and the frame
/// that it gave.
pub struct RunCall {
    pub before: RoomView,
    pub after: RoomView,
    pub pa: Option<usize>,
}

/// Whether `calls` are calls of [`crate::room::scheduler::trap::run`] on hart `h`, one after the
/// other, between which nobody touches what the hart has.
pub open spec fn runs_in_turn(calls: Seq<RunCall>, h: int) -> bool {
    &&& forall|i: int|
        0 <= i < calls.len() ==> {
            let c = #[trigger] calls[i];
            &&& 0 <= h < c.before.lanes.len()
            &&& c.after == c.before.ticked(h)
            &&& c.pa is None <==> c.before.lanes[h].running is None
            &&& c.pa is Some ==> c.pa->0 == c.after.tasks[c.after.lanes[h].running->0].ident.frame
        }
    &&& forall|i: int|
        0 < i < calls.len() ==> untouched(calls[i - 1].after, (#[trigger] calls[i]).before, h)
}

proof fn lemma_untouched_ticks(a: RoomView, b: RoomView, h: int)
    requires
        0 <= h < a.lanes.len(),
        a.lanes[h].running is Some,
        untouched(a, b, h),
    ensures
        untouched(a.ticked(h), b.ticked(h), h),
{
    let l = a.lanes[h];
    let cur = l.running->0;
    assert(belongs(a, h, cur));
    if l.queue.len() > 0 {
        assert(l.queue.contains(l.queue[0]));
        assert(belongs(a, h, l.queue[0]));
    }
    assert forall|x: usize| #[trigger] belongs(a.ticked(h), h, x) implies b.ticked(h).tasks[x]
        == a.ticked(h).tasks[x] by {
        let q = a.ticked(h).lanes[h].queue;
        assert(belongs(a, h, x)) by {
            if q.contains(x) {
                let i = choose|i: int| 0 <= i < q.len() && q[i] == x;
                if q != l.queue && i < l.queue.len() - 1 {
                    assert(l.queue[i + 1] == x);
                }
            }
        }
    }
}

proof fn lemma_untouched_trans(a: RoomView, b: RoomView, c: RoomView, h: int)
    requires
        untouched(a, b, h),
        untouched(b, c, h),
    ensures
        untouched(a, c, h),
{
    assert forall|x: usize| #[trigger] belongs(a, h, x) implies c.tasks[x] == a.tasks[x] by {
        assert(belongs(b, h, x));
    }
}

proof fn lemma_calls_tick(calls: Seq<RunCall>, h: int, id: usize, t: nat, i: int)
    requires
        runs_in_turn(calls, h),
        0 <= i < calls.len(),
        runs_for(calls[0].before, h, id, t),
        t > 0,
        i + 1 < t + calls[0].before.lanes[h].queue.len() * QUANTUM_TICKS as nat,
    ensures
        ({
            let v = calls[0].before;
            &&& untouched(ticked_times(v, h, i as nat), calls[i].before, h)
            &&& calls[i].pa == Some(v.tasks[runner(v, h, id, t, (i + 1) as nat)].ident.frame)
        }),
    decreases i,
{
    let v = calls[0].before;
    let c = calls[i];
    let w = ticked_times(v, h, i as nat);
    lemma_lanes_stay(v, h, i as nat);
    law_who_runs(v, h, id, t, i as nat);
    if i > 0 {
        lemma_calls_tick(calls, h, id, t, i - 1);
        let u = ticked_times(v, h, (i - 1) as nat);
        law_who_runs(v, h, id, t, (i - 1) as nat);
        lemma_lanes_stay(v, h, (i - 1) as nat);
        lemma_untouched_ticks(u, calls[i - 1].before, h);
        assert(w == u.ticked(h));
        lemma_untouched_trans(w, calls[i - 1].after, c.before, h);
    }
    lemma_untouched_ticks(w, c.before, h);
    let x = ticked_times(v, h, (i + 1) as nat);
    assert(x == w.ticked(h));
    law_who_runs(v, h, id, t, (i + 1) as nat);
    let r = runner(v, h, id, t, (i + 1) as nat);
    assert(belongs(x, h, r));
    lemma_ticks_keep_idents(v, h, (i + 1) as nat, r);
}

proof fn lemma_lanes_stay(v: RoomView, h: int, k: nat)
    requires
        0 <= h < v.lanes.len(),
    ensures
        ticked_times(v, h, k).lanes.len() == v.lanes.len(),
    decreases k,
{
    if k > 0 {
        lemma_lanes_stay(v, h, (k - 1) as nat);
    }
}

/// Strict turns in a room: where a hart runs a task with so much left of its quantum, the call
/// that ends that and `i` whole quanta gives the frame of the ready task at place `i`, and every
/// call before gives the frame of the running task or of one that stands before it.
pub proof fn law_room_takes_turns(calls: Seq<RunCall>, h: int, id: usize, t: nat, i: nat)
    requires
        runs_in_turn(calls, h),
        calls.len() > 0,
        runs_for(calls[0].before, h, id, t),
        t > 0,
        i < calls[0].before.lanes[h].queue.len(),
        t + i * QUANTUM_TICKS as nat <= calls.len(),
    ensures
        ({
            let v = calls[0].before;
            let queue = v.lanes[h].queue;
            let n = t + i * QUANTUM_TICKS as nat;
            let mine = v.tasks[queue[i as int]].ident.frame;
            &&& calls[n - 1].pa == Some(mine)
            &&& forall|m: int|
                0 <= m < n - 1 ==> (#[trigger] calls[m]).pa == Some(
                    v.tasks[runner(v, h, id, t, (m + 1) as nat)].ident.frame,
                )
            &&& v.tasks[id].ident.frame != mine && (forall|j: int|
                0 <= j < i ==> v.tasks[#[trigger] queue[j]].ident.frame != mine) ==> (forall|m: int|
                0 <= m < n - 1 ==> (#[trigger] calls[m]).pa != Some(mine))
        }),
{
    let v = calls[0].before;
    let queue = v.lanes[h].queue;
    let d = QUANTUM_TICKS as nat;
    let n = t + i * d;
    let mine = v.tasks[queue[i as int]].ident.frame;
    assert((i + 1) * d <= queue.len() * d) by (nonlinear_arith)
        requires
            i < queue.len(),
    ;
    assert((i + 1) * d == i * d + d) by (nonlinear_arith);
    assert forall|m: int| 0 <= m < n implies (#[trigger] calls[m]).pa == Some(
        v.tasks[runner(v, h, id, t, (m + 1) as nat)].ident.frame,
    ) by {
        lemma_calls_tick(calls, h, id, t, m);
    }
    assert((n - t) / QUANTUM_TICKS as int == i);
    assert(runner(v, h, id, t, n) == queue[i as int]);
    assert(calls[n - 1].pa == Some(mine));
    if v.tasks[id].ident.frame != mine && forall|j: int|
        0 <= j < i ==> v.tasks[#[trigger] queue[j]].ident.frame != mine {
        assert forall|m: int| 0 <= m < n - 1 implies (#[trigger] calls[m]).pa != Some(mine) by {
            if m + 1 >= t {
                let j = (m + 1 - t) / QUANTUM_TICKS as int;
                assert(0 <= j < i);
                assert(runner(v, h, id, t, (m + 1) as nat) == queue[j]);
            }
        }
    }
}

} // verus!
