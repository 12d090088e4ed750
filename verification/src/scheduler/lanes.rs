//! What the harts' schedulers do together: stealing, fetching, counting, clearing away.
use std::collections::VecDeque;
use vstd::prelude::*;
use crate::bits::MAX_HART_SLOTS;
use crate::scheduler::{Dispatch, Lane, Scheduler};
use crate::scheduler::readied;
use crate::task::Task;
use crate::team::Team;
use crate::team::pruned;
use crate::tie;
use crate::tie::Tie;
use crate::tie::{is_done, marked};

verus! {

/// What the schedulers hold.
pub open spec fn views(lanes: Seq<Scheduler>) -> Seq<Lane> {
    lanes.map_values(|s: Scheduler| s@)
}

/// Whether each scheduler is in order and stands at its hart's number.
pub open spec fn lanes_wf(lanes: Seq<Scheduler>) -> bool {
    &&& 0 < lanes.len() <= MAX_HART_SLOTS
    &&& forall|h: int| 0 <= h < lanes.len() ==> (#[trigger] lanes[h]).wf() && lanes[h].hart == h
}

/// Whether hart `me` can take a task from hart `v`: one is ready there, and nobody is
/// changing its queue.
pub open spec fn robbable(lanes: Seq<Lane>, busy: Seq<bool>, me: int, v: int) -> bool {
    0 <= v < lanes.len() && v != me && lanes[v].starved.len() > 0 && !busy[v]
}

/// The lowest hart from `from` on that `me` can take a task from.
pub open spec fn victim(lanes: Seq<Lane>, busy: Seq<bool>, me: int, from: int) -> Option<int>
    decreases lanes.len() - from,
{
    if from >= lanes.len() {
        None
    } else if robbable(lanes, busy, me, from) {
        Some(from)
    } else {
        victim(lanes, busy, me, from + 1)
    }
}

/// [`victim`] is the first one that can be robbed.
pub proof fn lemma_victim(lanes: Seq<Lane>, busy: Seq<bool>, me: int, from: int)
    requires
        0 <= from <= lanes.len(),
    ensures
        victim(lanes, busy, me, from) matches Some(v) ==> from <= v < lanes.len() && robbable(
            lanes,
            busy,
            me,
            v,
        ) && forall|u: int| from <= u < v ==> !robbable(lanes, busy, me, u),
        victim(lanes, busy, me, from) is None ==> forall|u: int|
            from <= u < lanes.len() ==> !robbable(lanes, busy, me, u),
    decreases lanes.len() - from,
{
    if from < lanes.len() && !robbable(lanes, busy, me, from) {
        lemma_victim(lanes, busy, me, from + 1);
    }
}

/// Takes the first ready task of the lowest other hart that has one and is not busy.
pub fn steal(lanes: &mut Vec<Scheduler>, me: usize, busy: &Vec<bool>) -> (t: Option<Task>)
    requires
        lanes_wf(old(lanes)@),
        busy@.len() == old(lanes)@.len(),
    ensures
        lanes_wf(final(lanes)@),
        final(lanes)@.len() == old(lanes)@.len(),
        match victim(views(old(lanes)@), busy@, me as int, 0) {
            None => t is None && views(final(lanes)@) == views(old(lanes)@),
            Some(v) => t == Some(views(old(lanes)@)[v].starved[0]) && views(final(lanes)@) == views(
                old(lanes)@,
            ).update(v, views(old(lanes)@)[v].popped()),
        },
{
    let mut v: usize = 0;
    while v < lanes.len()
        invariant
            v <= lanes@.len(),
            views(lanes@) == views(old(lanes)@),
            lanes@.len() == old(lanes)@.len(),
            lanes_wf(lanes@),
            busy@.len() == lanes@.len(),
            victim(views(lanes@), busy@, me as int, 0) == victim(
                views(lanes@),
                busy@,
                me as int,
                v as int,
            ),
        decreases lanes@.len() - v,
    {
        assert(views(lanes@)[v as int] == lanes@[v as int]@);
        if v != me && lanes[v].get_len() != 0 {
            let lane: &mut Scheduler = &mut lanes[v];
            let t: Option<Task> = lane.try_pop(busy[v]);
            if t.is_some() {
                assert(views(lanes@) =~= views(old(lanes)@).update(
                    v as int,
                    views(old(lanes)@)[v as int].popped(),
                ));
                return t;
            }
            assert(views(lanes@) =~= views(old(lanes)@));
        }
        v += 1;
    }
    None
}

/// The hart that is looked at after `off` others, from `start` on and round again.
pub open spec fn turn(start: int, off: int, n: int) -> int {
    (start + off) % n
}

/// The first hart from `off` on in the round from `start` that `me` can take a task from.
pub open spec fn next_victim(
    lanes: Seq<Lane>,
    busy: Seq<bool>,
    me: int,
    start: int,
    off: int,
) -> Option<int>
    decreases lanes.len() - off,
{
    if off >= lanes.len() {
        None
    } else if robbable(lanes, busy, me, turn(start, off, lanes.len() as int)) {
        Some(turn(start, off, lanes.len() as int))
    } else {
        next_victim(lanes, busy, me, start, off + 1)
    }
}

/// As [`steal`], but each time from another hart on: `cursor` counts the times.
pub fn steal_round(
    lanes: &mut Vec<Scheduler>,
    me: usize,
    busy: &Vec<bool>,
    cursor: &mut usize,
) -> (t: Option<Task>)
    requires
        lanes_wf(old(lanes)@),
        busy@.len() == old(lanes)@.len(),
    ensures
        lanes_wf(final(lanes)@),
        final(lanes)@.len() == old(lanes)@.len(),
        old(lanes)@.len() == 1 ==> t is None && views(final(lanes)@) == views(old(lanes)@)
            && *final(cursor) == *old(cursor),
        old(lanes)@.len() > 1 ==> {
            let n = old(lanes)@.len() as int;
            &&& *final(cursor) == (*old(cursor)).wrapping_add(1)
            &&& match next_victim(
                views(old(lanes)@),
                busy@,
                me as int,
                *old(cursor) as int % n,
                0,
            ) {
                None => t is None && views(final(lanes)@) == views(old(lanes)@),
                Some(v) => t == Some(views(old(lanes)@)[v].starved[0]) && views(final(lanes)@)
                    == views(old(lanes)@).update(v, views(old(lanes)@)[v].popped()),
            }
        },
{
    let n: usize = lanes.len();
    if n <= 1 {
        return None;
    }
    let start: usize = *cursor % n;
    *cursor = cursor.wrapping_add(1);
    let mut off: usize = 0;
    while off < n
        invariant
            off <= n == lanes@.len(),
            1 < n <= MAX_HART_SLOTS,
            start as int == *old(cursor) as int % n as int,
            *cursor == (*old(cursor)).wrapping_add(1),
            views(lanes@) == views(old(lanes)@),
            lanes@.len() == old(lanes)@.len(),
            lanes_wf(lanes@),
            busy@.len() == lanes@.len(),
            next_victim(views(lanes@), busy@, me as int, start as int, 0) == next_victim(
                views(lanes@),
                busy@,
                me as int,
                start as int,
                off as int,
            ),
        decreases n - off,
    {
        let v: usize = (start + off) % n;
        assert(v == turn(start as int, off as int, n as int));
        assert(views(lanes@)[v as int] == lanes@[v as int]@);
        if v != me && lanes[v].get_len() != 0 {
            let lane: &mut Scheduler = &mut lanes[v];
            let t: Option<Task> = lane.try_pop(busy[v]);
            if t.is_some() {
                assert(views(lanes@) =~= views(old(lanes)@).update(
                    v as int,
                    views(old(lanes)@)[v as int].popped(),
                ));
                return t;
            }
            assert(views(lanes@) =~= views(old(lanes)@));
        }
        off += 1;
    }
    None
}

/// A hart that starts its round anywhere looks at every hart once: where some hart can be
/// robbed, one is.
pub proof fn law_round_misses_nobody(
    lanes: Seq<Lane>,
    busy: Seq<bool>,
    me: int,
    start: int,
    v: int,
)
    requires
        0 <= start < lanes.len(),
        robbable(lanes, busy, me, v),
    ensures
        next_victim(lanes, busy, me, start, 0) is Some,
{
    let n = lanes.len() as int;
    let off = if v >= start {
        v - start
    } else {
        v - start + n
    };
    if v >= start {
        vstd::arithmetic::div_mod::lemma_small_mod(v as nat, n as nat);
    } else {
        vstd::arithmetic::div_mod::lemma_mod_add_multiples_vanish(v, n);
        vstd::arithmetic::div_mod::lemma_small_mod(v as nat, n as nat);
    }
    assert(turn(start, off, n) == v);
    lemma_round_from(lanes, busy, me, start, 0, off);
}

proof fn lemma_round_from(
    lanes: Seq<Lane>,
    busy: Seq<bool>,
    me: int,
    start: int,
    from: int,
    off: int,
)
    requires
        0 <= from <= off < lanes.len(),
        robbable(lanes, busy, me, turn(start, off, lanes.len() as int)),
    ensures
        next_victim(lanes, busy, me, start, from) is Some,
    decreases off - from,
{
    if !robbable(lanes, busy, me, turn(start, from, lanes.len() as int)) {
        lemma_round_from(lanes, busy, me, start, from + 1, off);
    }
}

/// What a hart with nothing on it found.
pub enum Fetched {
    /// This frame to return to.
    Run(Dispatch),
    /// Every task is over.
    Halt,
    /// Nothing: the hart is marked as waiting and may sleep.
    Wait,
}

/// Whether hart `me` finds nothing on its first look: its own queue is empty, tasks are
/// still to come, and it can take none from another hart.
pub open spec fn looks_twice(lanes: Seq<Lane>, busy: Seq<bool>, me: int, done: bool) -> bool {
    lanes[me].starved.len() == 0 && !done && victim(lanes, busy, me, 0) is None
}

/// The hart that the next task of hart `me` comes from, if it gets one.
pub open spec fn source(
    lanes: Seq<Lane>,
    busy: Seq<bool>,
    again: Seq<bool>,
    me: int,
    done: bool,
) -> Option<int> {
    if lanes[me].starved.len() > 0 {
        Some(me)
    } else if done {
        None
    } else if victim(lanes, busy, me, 0) is Some {
        victim(lanes, busy, me, 0)
    } else {
        victim(lanes, again, me, 0)
    }
}

/// `lanes` after hart `me` took the first ready task of hart `v` on.
pub open spec fn moved(lanes: Seq<Lane>, me: int, v: int) -> Seq<Lane> {
    let t = lanes[v].starved[0];
    let rest = lanes.update(v, lanes[v].popped());
    rest.update(me, rest[me].seated(t))
}

/// Whether hart `me`, which is idle, finds `f` and leaves `after` and `tie1` behind.
pub open spec fn fetched(
    before: Seq<Lane>,
    tie0: Tie,
    me: usize,
    busy: Seq<bool>,
    again: Seq<bool>,
    after: Seq<Lane>,
    tie1: Tie,
    f: Fetched,
) -> bool {
    let done = is_done(tie0);
    &&& match source(before, busy, again, me as int, done) {
        Some(v) => {
            &&& f == Fetched::Run(Dispatch { pa: before[v].starved[0].trap.pa, arm: true })
            &&& after == moved(before, me as int, v)
        },
        None => {
            &&& f == (if done {
                Fetched::Halt
            } else {
                Fetched::Wait
            })
            &&& after == before
        },
    }
    &&& if looks_twice(before, busy, me as int, done) {
        marked(tie0, tie1, me, f is Wait)
    } else {
        tie1 == tie0
    }
}

/// Finds hart `me`, which is idle, something to do: its own first ready task, or that of
/// another hart. `busy` are the harts whose queues cannot be touched on the first look,
/// `again` those on the second, which comes after the hart was marked as waiting.
pub fn fetch(
    lanes: &mut Vec<Scheduler>,
    tie: &mut Tie,
    me: usize,
    busy: &Vec<bool>,
    again: &Vec<bool>,
) -> (f: Fetched)
    requires
        lanes_wf(old(lanes)@),
        me < old(lanes)@.len(),
        old(lanes)@[me as int]@.running is None,
        busy@.len() == old(lanes)@.len(),
        again@.len() == old(lanes)@.len(),
    ensures
        lanes_wf(final(lanes)@),
        final(lanes)@.len() == old(lanes)@.len(),
        fetched(
            views(old(lanes)@),
            *old(tie),
            me,
            busy@,
            again@,
            views(final(lanes)@),
            *final(tie),
            f,
        ),
{
    let ghost before = views(lanes@);
    assert(before[me as int] == lanes@[me as int]@);
    {
        let lane: &mut Scheduler = &mut lanes[me];
        let own: Option<Dispatch> = lane.fill();
        if own.is_some() {
            assert(views(lanes@) =~= moved(before, me as int, me as int));
            return Fetched::Run(own.unwrap());
        }
    }
    assert(views(lanes@) =~= before);
    if tie::done(tie) {
        return Fetched::Halt;
    }
    proof {
        lemma_victim(before, busy@, me as int, 0);
        lemma_victim(before, again@, me as int, 0);
    }
    let first: Option<Task> = steal(lanes, me, busy);
    if first.is_some() {
        assert(views(lanes@)[me as int] == lanes@[me as int]@);
        let lane: &mut Scheduler = &mut lanes[me];
        let d: Dispatch = lane.replace(first.unwrap());
        assert(views(lanes@) =~= moved(
            before,
            me as int,
            victim(before, busy@, me as int, 0)->0,
        ));
        return Fetched::Run(d);
    }
    tie::sleep(tie, me);
    let second: Option<Task> = steal(lanes, me, again);
    if second.is_some() {
        tie::wake(tie, me);
        assert(views(lanes@)[me as int] == lanes@[me as int]@);
        let lane: &mut Scheduler = &mut lanes[me];
        let d: Dispatch = lane.replace(second.unwrap());
        assert(views(lanes@) =~= moved(
            before,
            me as int,
            victim(before, again@, me as int, 0)->0,
        ));
        return Fetched::Run(d);
    }
    Fetched::Wait
}

/// The hart that a single look finds a task on: the own one first.
pub open spec fn seen(lanes: Seq<Lane>, busy: Seq<bool>, me: int) -> Option<int> {
    if lanes[me].starved.len() > 0 {
        Some(me)
    } else {
        victim(lanes, busy, me, 0)
    }
}

/// Looks once for a task for the idle hart `me`, and lets it run.
pub fn look(lanes: &mut Vec<Scheduler>, me: usize, busy: &Vec<bool>) -> (d: Option<Dispatch>)
    requires
        lanes_wf(old(lanes)@),
        me < old(lanes)@.len(),
        old(lanes)@[me as int]@.running is None,
        busy@.len() == old(lanes)@.len(),
    ensures
        lanes_wf(final(lanes)@),
        final(lanes)@.len() == old(lanes)@.len(),
        match seen(views(old(lanes)@), busy@, me as int) {
            Some(v) => {
                &&& d == Some(
                    Dispatch { pa: views(old(lanes)@)[v].starved[0].trap.pa, arm: true },
                )
                &&& views(final(lanes)@) == moved(views(old(lanes)@), me as int, v)
            },
            None => d is None && views(final(lanes)@) == views(old(lanes)@),
        },
{
    let ghost before = views(lanes@);
    assert(before[me as int] == lanes@[me as int]@);
    {
        let lane: &mut Scheduler = &mut lanes[me];
        let own: Option<Dispatch> = lane.fill();
        if own.is_some() {
            assert(views(lanes@) =~= moved(before, me as int, me as int));
            return own;
        }
    }
    assert(views(lanes@) =~= before);
    proof {
        lemma_victim(before, busy@, me as int, 0);
    }
    match steal(lanes, me, busy) {
        None => None,
        Some(task) => {
            assert(views(lanes@)[me as int] == lanes@[me as int]@);
            let lane: &mut Scheduler = &mut lanes[me];
            let d: Dispatch = lane.replace(task);
            assert(views(lanes@) =~= moved(
                before,
                me as int,
                victim(before, busy@, me as int, 0)->0,
            ));
            Some(d)
        },
    }
}

/// Moving the task that a look found keeps every task in a team.
pub proof fn lemma_seen_in(lanes: Seq<Lane>, busy: Seq<bool>, me: int, n: int)
    requires
        0 <= me < lanes.len(),
        busy.len() == lanes.len(),
        lanes_in(lanes, n),
        seen(lanes, busy, me) is Some,
    ensures
        lanes_in(moved(lanes, me, seen(lanes, busy, me)->0), n),
{
    lemma_victim(lanes, busy, me, 0);
    let v = seen(lanes, busy, me)->0;
    assert(lane_in(lanes[v], n));
    assert(lane_in(lanes[me], n));
    assert(lanes[v].starved[0].team < n);
    assert(lane_in(lanes[v].popped(), n));
}

/// Whether hart `me` goes on with `f`: a tick for the running task, or a new task.
pub open spec fn ran(
    before: Seq<Lane>,
    tie0: Tie,
    me: usize,
    busy: Seq<bool>,
    again: Seq<bool>,
    after: Seq<Lane>,
    tie1: Tie,
    f: Fetched,
) -> bool {
    let lane = before[me as int];
    if lane.running is Some {
        &&& after == before.update(me as int, lane.ticked())
        &&& tie1 == tie0
        &&& f == Fetched::Run(
            Dispatch {
                pa: lane.ticked().running->0.trap.pa,
                arm: lane.running->0.state->ticks_left <= 1 && lane.starved.len() > 0,
            },
        )
    } else {
        fetched(before, tie0, me, busy, again, after, tie1, f)
    }
}

/// What hart `me` does next: see [`Scheduler::tick`] and [`fetch`].
pub fn go(
    lanes: &mut Vec<Scheduler>,
    tie: &mut Tie,
    me: usize,
    busy: &Vec<bool>,
    again: &Vec<bool>,
) -> (f: Fetched)
    requires
        lanes_wf(old(lanes)@),
        me < old(lanes)@.len(),
        busy@.len() == old(lanes)@.len(),
        again@.len() == old(lanes)@.len(),
    ensures
        lanes_wf(final(lanes)@),
        final(lanes)@.len() == old(lanes)@.len(),
        ran(
            views(old(lanes)@),
            *old(tie),
            me,
            busy@,
            again@,
            views(final(lanes)@),
            *final(tie),
            f,
        ),
{
    let ghost before = views(lanes@);
    assert(before[me as int] == lanes@[me as int]@);
    if lanes[me].running.is_some() {
        let lane: &mut Scheduler = &mut lanes[me];
        let d: Dispatch = lane.tick();
        assert(views(lanes@) =~= before.update(me as int, before[me as int].ticked()));
        return Fetched::Run(d);
    }
    fetch(lanes, tie, me, busy, again)
}

/// How often the task `id` stands in `s`.
pub open spec fn times(s: Seq<Task>, id: usize) -> nat
    decreases s.len(),
{
    if s.len() == 0 {
        0
    } else {
        times(s.drop_last(), id) + (if s.last().id == id {
            1nat
        } else {
            0
        })
    }
}

/// How often it stands on one hart.
pub open spec fn lane_times(l: Lane, id: usize) -> nat {
    times(l.starved, id) + (if l.running is Some && l.running->0.id == id {
        1nat
    } else {
        0
    })
}

/// How often it stands on all of them.
pub open spec fn lanes_times(lanes: Seq<Lane>, id: usize) -> nat
    decreases lanes.len(),
{
    if lanes.len() == 0 {
        0
    } else {
        lanes_times(lanes.drop_last(), id) + lane_times(lanes.last(), id)
    }
}

pub proof fn lemma_times_push(s: Seq<Task>, t: Task, id: usize)
    ensures
        times(s.push(t), id) == times(s, id) + (if t.id == id {
            1nat
        } else {
            0
        }),
{
    assert(s.push(t).drop_last() =~= s);
}

pub proof fn lemma_times_pop(s: Seq<Task>, id: usize)
    requires
        s.len() > 0,
    ensures
        times(s, id) == times(s.subrange(1, s.len() as int), id) + (if s[0].id == id {
            1nat
        } else {
            0
        }),
    decreases s.len(),
{
    let tail = s.subrange(1, s.len() as int);
    if s.len() > 1 {
        lemma_times_pop(s.drop_last(), id);
        assert(tail.drop_last() =~= s.drop_last().subrange(1, s.len() - 1));
    } else {
        assert(times(s.drop_last(), id) == 0);
        assert(times(tail, id) == 0);
    }
}

pub proof fn lemma_lanes_update(lanes: Seq<Lane>, h: int, l: Lane, id: usize)
    requires
        0 <= h < lanes.len(),
    ensures
        lanes_times(lanes.update(h, l), id) + lane_times(lanes[h], id) == lanes_times(lanes, id)
            + lane_times(l, id),
    decreases lanes.len(),
{
    let after = lanes.update(h, l);
    if h == lanes.len() - 1 {
        assert(after.drop_last() =~= lanes.drop_last());
    } else {
        assert(after.drop_last() =~= lanes.drop_last().update(h, l));
        lemma_lanes_update(lanes.drop_last(), h, l, id);
    }
}

/// Moving a task from one hart's queue onto another hart keeps every task where it is
/// counted.
pub proof fn lemma_moved(lanes: Seq<Lane>, me: int, v: int, id: usize)
    requires
        0 <= me < lanes.len(),
        0 <= v < lanes.len(),
        lanes[v].starved.len() > 0,
        lanes[me].running is None,
    ensures
        lanes_times(moved(lanes, me, v), id) == lanes_times(lanes, id),
{
    let rest = lanes.update(v, lanes[v].popped());
    lemma_times_pop(lanes[v].starved, id);
    lemma_lanes_update(lanes, v, lanes[v].popped(), id);
    lemma_lanes_update(rest, me, rest[me].seated(lanes[v].starved[0]), id);
}

pub proof fn lemma_times_add(s: Seq<Task>, t: Seq<Task>, id: usize)
    ensures
        times(s + t, id) == times(s, id) + times(t, id),
    decreases t.len(),
{
    if t.len() == 0 {
        assert(s + t =~= s);
    } else {
        assert((s + t).drop_last() =~= s + t.drop_last());
        lemma_times_add(s, t.drop_last(), id);
    }
}

/// Making way keeps every task of the hart.
pub proof fn lemma_rotated(l: Lane, id: usize)
    requires
        l.running is Some,
    ensures
        lane_times(l.rotated(), id) == lane_times(l, id),
{
    let queue = l.vacated().pushed(readied(l.running->0));
    lemma_times_push(l.starved, readied(l.running->0), id);
    lemma_times_pop(queue.starved, id);
}

/// A tick keeps every task of the hart.
pub proof fn lemma_ticked(l: Lane, id: usize)
    requires
        l.running is Some,
    ensures
        lane_times(l.ticked(), id) == lane_times(l, id),
{
    lemma_rotated(l, id);
}

/// Whatever a hart does next, every task stays.
pub proof fn lemma_ran(
    before: Seq<Lane>,
    tie0: Tie,
    me: usize,
    busy: Seq<bool>,
    again: Seq<bool>,
    after: Seq<Lane>,
    tie1: Tie,
    f: Fetched,
    id: usize,
)
    requires
        ran(before, tie0, me, busy, again, after, tie1, f),
        me < before.len(),
        busy.len() == before.len(),
        again.len() == before.len(),
    ensures
        lanes_times(after, id) == lanes_times(before, id),
{
    let lane = before[me as int];
    if lane.running is Some {
        lemma_ticked(lane, id);
        lemma_lanes_update(before, me as int, lane.ticked(), id);
    } else {
        lemma_victim(before, busy, me as int, 0);
        lemma_victim(before, again, me as int, 0);
        match source(before, busy, again, me as int, is_done(tie0)) {
            Some(v) => lemma_moved(before, me as int, v, id),
            None => {},
        }
    }
}

/// Whether every task of the hart has a team among `n`.
pub open spec fn lane_in(l: Lane, n: int) -> bool {
    &&& l.running matches Some(t) ==> t.team < n
    &&& forall|i: int| 0 <= i < l.starved.len() ==> (#[trigger] l.starved[i]).team < n
}

/// Whether every task on the harts has a team among `n`.
pub open spec fn lanes_in(lanes: Seq<Lane>, n: int) -> bool {
    forall|h: int| 0 <= h < lanes.len() ==> lane_in(#[trigger] lanes[h], n)
}

/// Whatever a hart does next, the harts stay.
pub proof fn lemma_ran_len(
    before: Seq<Lane>,
    tie0: Tie,
    me: usize,
    busy: Seq<bool>,
    again: Seq<bool>,
    after: Seq<Lane>,
    tie1: Tie,
    f: Fetched,
)
    requires
        ran(before, tie0, me, busy, again, after, tie1, f),
        me < before.len(),
        busy.len() == before.len(),
        again.len() == before.len(),
    ensures
        after.len() == before.len(),
{
    lemma_victim(before, busy, me as int, 0);
    lemma_victim(before, again, me as int, 0);
}

/// Whatever a hart does next, every task keeps a team.
pub proof fn lemma_ran_in(
    before: Seq<Lane>,
    tie0: Tie,
    me: usize,
    busy: Seq<bool>,
    again: Seq<bool>,
    after: Seq<Lane>,
    tie1: Tie,
    f: Fetched,
    n: int,
)
    requires
        ran(before, tie0, me, busy, again, after, tie1, f),
        me < before.len(),
        busy.len() == before.len(),
        again.len() == before.len(),
        lanes_in(before, n),
    ensures
        lanes_in(after, n),
        after.len() == before.len(),
{
    let lane = before[me as int];
    assert(lane_in(lane, n));
    if lane.running is Some {
        assert(lane_in(lane.ticked(), n));
    } else {
        lemma_victim(before, busy, me as int, 0);
        lemma_victim(before, again, me as int, 0);
        match source(before, busy, again, me as int, is_done(tie0)) {
            Some(v) => {
                assert(lane_in(before[v], n));
                assert(before[v].starved[0].team < n);
                assert(lane_in(before[v].popped(), n));
            },
            None => {},
        }
    }
}

/// The numbers of the tasks in `s`.
pub open spec fn ids_of(s: Seq<Task>) -> Seq<usize> {
    s.map_values(|t: Task| t.id)
}

/// The numbers of the tasks on `lanes`, hart by hart.
pub open spec fn census_of(lanes: Seq<Lane>) -> Seq<usize>
    decreases lanes.len(),
{
    if lanes.len() == 0 {
        Seq::empty()
    } else {
        let l = lanes.last();
        let on = match l.running {
            Some(t) => seq![t.id],
            None => Seq::empty(),
        };
        census_of(lanes.drop_last()) + on + ids_of(l.starved)
    }
}

/// Appends the numbers of the tasks in `s` to `out`.
pub fn list_ids(s: &VecDeque<Task>, out: &mut Vec<usize>)
    ensures
        final(out)@ == old(out)@ + ids_of(s@),
{
    let ghost before = out@;
    let mut i: usize = 0;
    while i < s.len()
        invariant
            i <= s@.len(),
            out@ =~= before + ids_of(s@).take(i as int),
        decreases s@.len() - i,
    {
        out.push(s[i].id);
        assert(ids_of(s@).take(i + 1) =~= ids_of(s@).take(i as int).push(s@[i as int].id));
        i += 1;
    }
    assert(ids_of(s@).take(i as int) =~= ids_of(s@));
}

/// The numbers of all tasks on the harts.
pub fn census(lanes: &Vec<Scheduler>) -> (ids: Vec<usize>)
    ensures
        ids@ == census_of(views(lanes@)),
{
    let mut ids: Vec<usize> = Vec::new();
    let mut h: usize = 0;
    assert(views(lanes@).take(0) =~= Seq::<Lane>::empty());
    while h < lanes.len()
        invariant
            h <= lanes@.len(),
            ids@ == census_of(views(lanes@).take(h as int)),
        decreases lanes@.len() - h,
    {
        let ghost so_far = ids@;
        let lane: &Scheduler = &lanes[h];
        assert(views(lanes@).take(h + 1).drop_last() =~= views(lanes@).take(h as int));
        assert(views(lanes@).take(h + 1).last() == lane@);
        if let Some(t) = lane.running.as_ref() {
            ids.push(t.id);
            assert(ids@ =~= so_far + seq![t.id]);
        } else {
            assert(ids@ =~= so_far + Seq::<usize>::empty());
        }
        list_ids(&lane.starved, &mut ids);
        h += 1;
    }
    assert(views(lanes@).take(h as int) =~= views(lanes@));
    ids
}

/// What is left of an ended task for the memory manager to take back.
#[derive(Clone, Copy, Debug, PartialEq, Eq, Structural)]
pub struct Remains {
    pub id: usize,
    /// The address space.
    pub space: usize,
    /// The trap frame.
    pub va: usize,
}

/// The teams' task lists.
pub open spec fn rolls(teams: Seq<Team>) -> Seq<Seq<usize>> {
    teams.map_values(|t: Team| t.tasks@)
}

/// The teams' task lists after the tasks `dead` were cleared away one by one, while those
/// in `alive` exist.
pub open spec fn cleared(
    lists: Seq<Seq<usize>>,
    dead: Seq<Task>,
    alive: Seq<usize>,
) -> Seq<Seq<usize>>
    decreases dead.len(),
{
    if dead.len() == 0 {
        lists
    } else {
        let z = dead[0];
        let rest = dead.subrange(1, dead.len() as int);
        let after = lists.update(
            z.team as int,
            pruned(lists[z.team as int], alive + ids_of(rest), z.id),
        );
        cleared(after, rest, alive)
    }
}

/// What is left of the task `z`.
pub open spec fn remains(z: Task, teams: Seq<Team>) -> Remains {
    Remains { id: z.id, space: teams[z.team as int].space, va: z.trap.va }
}

/// What is left of the tasks `dead`.
pub open spec fn all_remains(dead: Seq<Task>, teams: Seq<Team>) -> Seq<Remains> {
    dead.map_values(|z: Task| remains(z, teams))
}

/// Whether the two lists of teams differ in nothing but the task lists.
pub open spec fn same_teams(a: Seq<Team>, b: Seq<Team>) -> bool {
    &&& a.len() == b.len()
    &&& forall|i: int|
        0 <= i < a.len() ==> (#[trigger] a[i]).id == b[i].id && a[i].space == b[i].space
}

/// Clears the ended tasks away, in the order in which they ended: each leaves its team's
/// list, and what is left of it is handed back.
pub fn clear_all(
    reaped: &mut VecDeque<Task>,
    teams: &mut Vec<Team>,
    alive: &Vec<usize>,
) -> (gone: Vec<Remains>)
    requires
        forall|i: int|
            0 <= i < old(reaped)@.len() ==> (#[trigger] old(reaped)@[i]).team < old(teams)@.len(),
    ensures
        final(reaped)@.len() == 0,
        same_teams(old(teams)@, final(teams)@),
        rolls(final(teams)@) == cleared(rolls(old(teams)@), old(reaped)@, alive@),
        gone@ == all_remains(old(reaped)@, old(teams)@),
{
    let ghost all = reaped@;
    let ghost start = teams@;
    let mut gone: Vec<Remains> = Vec::new();
    assert(all.skip(0) =~= all);
    while reaped.len() > 0
        invariant
            reaped@ =~= all.skip(gone@.len() as int),
            gone@.len() <= all.len(),
            forall|i: int| 0 <= i < all.len() ==> (#[trigger] all[i]).team < start.len(),
            same_teams(start, teams@),
            cleared(rolls(teams@), reaped@, alive@) == cleared(rolls(start), all, alive@),
            forall|i: int| 0 <= i < gone@.len() ==> #[trigger] gone@[i] == remains(all[i], start),
        decreases reaped@.len(),
    {
        let ghost before = teams@;
        let ghost queue = reaped@;
        let z: Task = reaped.pop_front().unwrap();
        assert(z == all[gone@.len() as int]);
        let mut now: Vec<usize> = Vec::new();
        let mut k: usize = 0;
        while k < alive.len()
            invariant
                k <= alive@.len(),
                now@ =~= alive@.take(k as int),
            decreases alive@.len() - k,
        {
            now.push(alive[k]);
            k += 1;
        }
        assert(alive@.take(k as int) =~= alive@);
        list_ids(reaped, &mut now);
        let team: &mut Team = &mut teams[z.team];
        team.prune_tasks(&now, z.id);
        let space: usize = teams[z.team].space;
        gone.push(Remains { id: z.id, space, va: z.trap.va });
        assert(rolls(teams@) =~= rolls(before).update(
            z.team as int,
            pruned(rolls(before)[z.team as int], alive@ + ids_of(reaped@), z.id),
        ));
        assert(reaped@ =~= queue.subrange(1, queue.len() as int));
    }
    assert(gone@ =~= all_remains(all, start));
    gone
}

/// A hart after its running task made way `k` times.
pub open spec fn rotated_times(l: Lane, k: nat) -> Lane
    decreases k,
{
    if k == 0 {
        l
    } else {
        rotated_times(l, (k - 1) as nat).rotated()
    }
}

proof fn lemma_rotated_ids(l: Lane)
    requires
        l.running is Some,
    ensures
        l.rotated().running is Some,
        l.starved.len() > 0 ==> {
            &&& l.rotated().running->0.id == l.starved[0].id
            &&& ids_of(l.rotated().starved) == ids_of(l.starved).skip(1).push(l.running->0.id)
        },
{
    if l.starved.len() > 0 {
        assert(ids_of(l.rotated().starved) =~= ids_of(l.starved).skip(1).push(l.running->0.id));
    }
}

/// Ready tasks take turns: the one at place `k` of the queue runs when the running ones have
/// made way `k` times, and nobody overtakes.
pub proof fn law_round_robin(l: Lane, k: nat)
    requires
        l.running is Some,
        1 <= k <= l.starved.len(),
    ensures
        rotated_times(l, k).running is Some,
        rotated_times(l, k).running->0.id == l.starved[k - 1].id,
        ids_of(rotated_times(l, k).starved) == ids_of(l.starved).skip(k as int).push(
            l.running->0.id,
        ) + ids_of(l.starved).take(k - 1),
    decreases k,
{
    let ids = ids_of(l.starved);
    if k == 1 {
        reveal_with_fuel(rotated_times, 2);
        lemma_rotated_ids(l);
        assert(ids.take(0) =~= Seq::<usize>::empty());
        assert(ids.skip(1).push(l.running->0.id) =~= ids.skip(1).push(l.running->0.id)
            + ids.take(0));
    } else {
        let before = rotated_times(l, (k - 1) as nat);
        law_round_robin(l, (k - 1) as nat);
        let had = ids_of(before.starved);
        assert(had.len() == before.starved.len());
        assert(had[0] == ids[k - 1]);
        assert(had[0] == before.starved[0].id);
        lemma_rotated_ids(before);
        assert(had.skip(1).push(before.running->0.id) =~= ids.skip(k as int).push(
            l.running->0.id,
        ) + ids.take(k - 1));
    }
}

/// And the turn comes back: when every other task has had one, the first runs again.
pub proof fn law_turn_comes_back(l: Lane)
    requires
        l.running is Some,
        l.starved.len() > 0,
    ensures
        rotated_times(l, (l.starved.len() + 1) as nat).running is Some,
        rotated_times(l, (l.starved.len() + 1) as nat).running->0.id == l.running->0.id,
{
    let n = l.starved.len();
    law_round_robin(l, n);
    let before = rotated_times(l, n);
    let had = ids_of(before.starved);
    assert(had.len() == before.starved.len());
    assert(had[0] == l.running->0.id);
    assert(had[0] == before.starved[0].id);
    lemma_rotated_ids(before);
}

} // verus!
