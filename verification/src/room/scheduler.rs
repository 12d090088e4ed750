//! Scheduling.
pub mod beacon;
pub mod fetch;
pub mod hart;
pub mod ident;
pub mod table;
pub mod task;
pub mod trap;
pub mod utask;

use std::collections::VecDeque;
use vstd::prelude::*;
use crate::bits::{Ipi, MAX_HART_SLOTS};
use crate::bits::{reaches_all, word_calls};
use crate::scheduler::{Dispatch, Lane, NO_TASK_ID};
use crate::scheduler::lanes::{Fetched, Remains, census, clear_all, go};
use crate::scheduler::lanes::{
    all_remains, census_of, cleared, lane_in, lane_times, lanes_in, lanes_times, lanes_wf, ran,
    rolls, same_teams, times, views,
};
use crate::scheduler::lanes::{
    lemma_lanes_update, lemma_ran, lemma_ran_in, lemma_ran_len, lemma_rotated, lemma_times_push,
};
use crate::scheduler::{asleep, ended, readied};
use crate::table::Table;
use crate::task::{Task, TaskState};
use crate::team::Team;
use crate::tie;
use crate::tie::Tie;
use fetch::WFI_FAR;

pub use crate::scheduler::Scheduler;

verus! {

/// How wide a task's name is printed.
pub const NAME_W: usize = 16;

/// What a hall holds.
#[verifier::ext_equal]
pub struct HallView {
    pub lanes: Seq<Lane>,
    /// The sleepers, by the handle that the clock knows them by.
    pub blocked: Map<u64, Task>,
    pub next_handle: u64,
    pub reaped: Seq<Task>,
}

/// A scheduler whose sleepers are woken by the clock: each has a handle, and the clock says
/// which handles are due.
pub struct Hall {
    /// One scheduler for each hart.
    pub lanes: Vec<Scheduler>,
    /// The sleepers.
    pub blocked: Table<u64, Task>,
    /// The next handle.
    pub next_handle: u64,
    /// The ended tasks that are still to be cleared away.
    pub reaped: VecDeque<Task>,
    /// The teams, by number.
    pub teams: Vec<Team>,
    /// What ties the harts together.
    pub tie: Tie,
}

impl View for Hall {
    type V = HallView;

    open spec fn view(&self) -> HallView {
        HallView {
            lanes: views(self.lanes@),
            blocked: self.blocked@,
            next_handle: self.next_handle,
            reaped: self.reaped@,
        }
    }
}

/// The handles under which the task `id` sleeps.
pub open spec fn beds(m: Map<u64, Task>, id: usize) -> Set<u64> {
    m.dom().filter(|k: u64| m[k].id == id)
}

impl HallView {
    /// In how many places the task `id` stands.
    pub open spec fn held(self, id: usize) -> nat {
        lanes_times(self.lanes, id) + beds(self.blocked, id).len() + times(self.reaped, id)
    }

    /// Whether every task has a team among `n`.
    pub open spec fn teamed(self, n: int) -> bool {
        &&& lanes_in(self.lanes, n)
        &&& forall|k: u64| #[trigger]
            self.blocked.contains_key(k) ==> self.blocked[k].team < n
        &&& forall|i: int| 0 <= i < self.reaped.len() ==> (#[trigger] self.reaped[i]).team < n
    }
}

/// Whether every task is in as many places in `b` as in `a`.
pub open spec fn hall_kept(a: HallView, b: HallView) -> bool {
    forall|id: usize| #[trigger] b.held(id) == a.held(id)
}

/// Whether no task is in two places.
pub open spec fn sole(v: HallView) -> bool {
    forall|id: usize| #[trigger] v.held(id) <= 1
}

/// Where every task is kept, no task gets into two places.
pub proof fn law_kept_is_sole(a: HallView, b: HallView)
    requires
        sole(a),
        hall_kept(a, b),
    ensures
        sole(b),
{
    assert forall|id: usize| #[trigger] b.held(id) <= 1 by {
        assert(a.held(id) <= 1);
    }
}

impl Hall {
    /// Whether each hart is in order, each task suits its place and has a team, and no
    /// handle from the next one on is in use.
    pub open spec fn wf(self) -> bool {
        &&& lanes_wf(self.lanes@)
        &&& self.blocked@.dom().finite()
        &&& forall|k: u64| #[trigger]
            self.blocked@.contains_key(k) ==> k < self.next_handle && self.blocked@[k].state
                is Blocked
        &&& forall|i: int|
            0 <= i < self.reaped@.len() ==> (#[trigger] self.reaped@[i]).state is Reaped
        &&& self@.teamed(self.teams@.len() as int)
    }
}

proof fn lemma_bed_made(m: Map<u64, Task>, k: u64, t: Task, id: usize)
    requires
        m.dom().finite(),
        !m.contains_key(k),
    ensures
        m.insert(k, t).dom().finite(),
        beds(m.insert(k, t), id).len() == beds(m, id).len() + (if t.id == id {
            1nat
        } else {
            0
        }),
{
    let after = m.insert(k, t);
    m.dom().lemma_len_filter(|j: u64| m[j].id == id);
    if t.id == id {
        assert(beds(after, id) =~= beds(m, id).insert(k));
    } else {
        assert(beds(after, id) =~= beds(m, id));
    }
}

proof fn lemma_bed_left(m: Map<u64, Task>, k: u64, id: usize)
    requires
        m.dom().finite(),
        m.contains_key(k),
    ensures
        m.remove(k).dom().finite(),
        beds(m, id).len() == beds(m.remove(k), id).len() + (if m[k].id == id {
            1nat
        } else {
            0
        }),
{
    let rest = m.remove(k);
    assert(rest.insert(k, m[k]) =~= m);
    lemma_bed_made(rest, k, m[k], id);
}

/// A machine with one hart for each trap stack.
pub fn init(tops: &Vec<usize>) -> (hall: Hall)
    requires
        0 < tops@.len() <= MAX_HART_SLOTS,
    ensures
        hall.wf(),
        hall@.lanes.len() == tops@.len(),
        forall|h: int|
            0 <= h < tops@.len() ==> #[trigger] hall@.lanes[h] == (Lane {
                hart: h as usize,
                top: tops@[h],
                running: None,
                starved: Seq::empty(),
            }),
        hall@.blocked == Map::<u64, Task>::empty(),
        hall@.next_handle == 0,
        hall@.reaped.len() == 0 && hall.teams@.len() == 0,
        hall.tie.pushed == 0 && hall.tie.reaped == 0 && hall.tie.arrived == 0,
        !hall.tie.halting,
        forall|h: int| !hall.tie.waiting.has(h),
{
    let floor: crate::scheduler::Floor = crate::scheduler::init(tops);
    Hall {
        lanes: floor.lanes,
        blocked: Table::new(),
        next_handle: 0,
        reaped: floor.reaped,
        teams: floor.teams,
        tie: floor.tie,
    }
}

/// Lets a new task in: it joins its team and the queue of hart `me`. The calls wake the
/// sleeping harts.
pub fn push(hall: &mut Hall, me: usize, task: Task) -> (calls: Vec<Ipi>)
    requires
        old(hall).wf(),
        me < old(hall)@.lanes.len(),
        task.state is Starved,
        task.team < old(hall).teams@.len(),
        old(hall)@.held(task.id) == 0,
    ensures
        final(hall).wf(),
        final(hall)@ == (HallView {
            lanes: old(hall)@.lanes.update(me as int, old(hall)@.lanes[me as int].pushed(task)),
            ..old(hall)@
        }),
        same_teams(old(hall).teams@, final(hall).teams@),
        rolls(final(hall).teams@) == rolls(old(hall).teams@).update(
            task.team as int,
            rolls(old(hall).teams@)[task.team as int].push(task.id),
        ),
        final(hall).tie == (Tie { pushed: old(hall).tie.pushed.wrapping_add(1), ..old(hall).tie }),
        word_calls(calls@, old(hall).tie.waiting),
        reaches_all(calls@, old(hall).tie.waiting),
        forall|id: usize| #[trigger]
            final(hall)@.held(id) == old(hall)@.held(id) + (if id == task.id {
                1nat
            } else {
                0
            }),
{
    let ghost before = hall@;
    assert(before.lanes[me as int] == hall.lanes@[me as int]@);
    assert(lane_in(before.lanes[me as int], hall.teams@.len() as int));
    let team: &mut Team = &mut hall.teams[task.team];
    team.push_task(task.id);
    let lane: &mut Scheduler = &mut hall.lanes[me];
    lane.push(task);
    tie::push(&mut hall.tie);
    proof {
        let l = before.lanes[me as int].pushed(task);
        assert(hall@.lanes =~= before.lanes.update(me as int, l));
        assert(lane_in(l, hall.teams@.len() as int));
        assert forall|id: usize| #[trigger]
            hall@.held(id) == before.held(id) + (if id == task.id {
                1nat
            } else {
                0
            }) by {
            lemma_times_push(before.lanes[me as int].starved, task, id);
            lemma_lanes_update(before.lanes, me as int, l, id);
        }
        assert(rolls(hall.teams@) =~= rolls(old(hall).teams@).update(
            task.team as int,
            rolls(old(hall).teams@)[task.team as int].push(task.id),
        ));
    }
    tie::wake_all(&hall.tie)
}

/// What a hart is to do next.
pub enum Stride {
    /// Return to this frame.
    Run(Dispatch),
    /// Halt: every task is over.
    Halt,
    /// Arm the timer this far ahead, sleep until an interrupt, then [`awake`] and [`run`]
    /// again.
    Sleep { delta: u64 },
}

/// How far ahead of `now` the timer of a sleeping hart is armed.
pub open spec fn far(next_tock: Option<u64>, now: u64) -> u64 {
    match next_tock {
        Some(at) => if at > now {
            (at - now) as u64
        } else {
            0
        },
        None => WFI_FAR,
    }
}

/// The stride that `f` is.
pub open spec fn stride_of(f: Fetched, delta: u64) -> Stride {
    match f {
        Fetched::Run(d) => Stride::Run(d),
        Fetched::Halt => Stride::Halt,
        Fetched::Wait => Stride::Sleep { delta },
    }
}

/// Whether running hart `me` on `a` gives `stride` and leaves `b`.
pub open spec fn strides(
    a: Hall,
    me: usize,
    busy: Seq<bool>,
    again: Seq<bool>,
    delta: u64,
    b: Hall,
    stride: Stride,
) -> bool {
    &&& exists|f: Fetched| #[trigger]
        ran(a@.lanes, a.tie, me, busy, again, b@.lanes, b.tie, f) && stride == stride_of(
            f,
            delta,
        )
    &&& b@.blocked == a@.blocked
    &&& b@.next_handle == a@.next_handle
    &&& b@.reaped == a@.reaped
    &&& b.teams == a.teams
}

/// A stride keeps the harts, the handles, and the number of teams.
pub proof fn lemma_stride_len(
    a: Hall,
    me: usize,
    busy: Seq<bool>,
    again: Seq<bool>,
    delta: u64,
    b: Hall,
    stride: Stride,
)
    requires
        strides(a, me, busy, again, delta, b, stride),
        me < a@.lanes.len(),
        busy.len() == a@.lanes.len(),
        again.len() == a@.lanes.len(),
    ensures
        b@.lanes.len() == a@.lanes.len(),
        b.teams == a.teams,
        b@.next_handle == a@.next_handle,
{
    let f = choose|f: Fetched| #[trigger]
        ran(a@.lanes, a.tie, me, busy, again, b@.lanes, b.tie, f) && stride == stride_of(f, delta);
    lemma_ran_len(a@.lanes, a.tie, me, busy, again, b@.lanes, b.tie, f);
}

/// What the machine shows a hart that looks for work: the harts whose queues cannot be
/// touched on the first and on the second look, the next deadline of the clock, and the time.
pub struct Scene {
    pub busy: Vec<bool>,
    pub again: Vec<bool>,
    pub next_tock: Option<u64>,
    pub now: u64,
}

/// What hart `me` does next: the running task goes on or makes way; an idle hart takes its
/// own first ready task, or that of another hart, or sleeps until the next deadline.
pub fn run(hall: &mut Hall, me: usize, scene: &Scene) -> (stride: Stride)
    requires
        old(hall).wf(),
        me < old(hall)@.lanes.len(),
        scene.busy@.len() == old(hall)@.lanes.len(),
        scene.again@.len() == old(hall)@.lanes.len(),
    ensures
        final(hall).wf(),
        final(hall)@.lanes.len() == old(hall)@.lanes.len(),
        strides(
            *old(hall),
            me,
            scene.busy@,
            scene.again@,
            far(scene.next_tock, scene.now),
            *final(hall),
            stride,
        ),
        hall_kept(old(hall)@, final(hall)@),
{
    let ghost before = *hall;
    let f: Fetched = go(&mut hall.lanes, &mut hall.tie, me, &scene.busy, &scene.again);
    proof {
        let n = hall.teams@.len() as int;
        lemma_ran_in(
            before@.lanes,
            before.tie,
            me,
            scene.busy@,
            scene.again@,
            hall@.lanes,
            hall.tie,
            f,
            n,
        );
        assert forall|id: usize| #[trigger] hall@.held(id) == before@.held(id) by {
            lemma_ran(
                before@.lanes,
                before.tie,
                me,
                scene.busy@,
                scene.again@,
                hall@.lanes,
                hall.tie,
                f,
                id,
            );
        }
    }
    match f {
        Fetched::Run(d) => Stride::Run(d),
        Fetched::Halt => Stride::Halt,
        Fetched::Wait => {
            let delta: u64 = match scene.next_tock {
                Some(at) => at.saturating_sub(scene.now),
                None => WFI_FAR,
            };
            Stride::Sleep { delta }
        },
    }
}

/// Where a hart with nothing to do starts.
pub fn idle(hall: &mut Hall, me: usize, scene: &Scene) -> (stride: Stride)
    requires
        old(hall).wf(),
        me < old(hall)@.lanes.len(),
        scene.busy@.len() == old(hall)@.lanes.len(),
        scene.again@.len() == old(hall)@.lanes.len(),
    ensures
        final(hall).wf(),
        final(hall)@.lanes.len() == old(hall)@.lanes.len(),
        strides(
            *old(hall),
            me,
            scene.busy@,
            scene.again@,
            far(scene.next_tock, scene.now),
            *final(hall),
            stride,
        ),
        hall_kept(old(hall)@, final(hall)@),
{
    run(hall, me, scene)
}

/// The hall after the sleepers under the handles `due` joined the queue of hart `me`, in
/// that order. A handle that nobody sleeps under is passed over.
pub open spec fn unparked(v: HallView, me: int, due: Seq<u64>) -> HallView
    decreases due.len(),
{
    if due.len() == 0 {
        v
    } else {
        let w = unparked(v, me, due.drop_last());
        let k = due.last();
        if w.blocked.contains_key(k) {
            HallView {
                lanes: w.lanes.update(me, w.lanes[me].pushed(readied(w.blocked[k]))),
                blocked: w.blocked.remove(k),
                ..w
            }
        } else {
            w
        }
    }
}

/// How many sleepers wake up.
pub open spec fn risers(v: HallView, me: int, due: Seq<u64>) -> nat
    decreases due.len(),
{
    if due.len() == 0 {
        0
    } else {
        let w = unparked(v, me, due.drop_last());
        risers(v, me, due.drop_last()) + (if w.blocked.contains_key(due.last()) {
            1nat
        } else {
            0
        })
    }
}

/// Wakes the sleepers under the handles that the clock says are due. For each of them the
/// calls wake the sleeping harts.
pub fn unpark(hall: &mut Hall, me: usize, due: &Vec<u64>) -> (calls: Vec<Vec<Ipi>>)
    requires
        old(hall).wf(),
        me < old(hall)@.lanes.len(),
    ensures
        final(hall).wf(),
        final(hall)@ == unparked(old(hall)@, me as int, due@),
        final(hall)@.lanes.len() == old(hall)@.lanes.len(),
        final(hall).teams == old(hall).teams,
        final(hall).tie == old(hall).tie,
        calls@.len() == risers(old(hall)@, me as int, due@),
        forall|i: int|
            0 <= i < calls@.len() ==> word_calls((#[trigger] calls@[i])@, old(hall).tie.waiting)
                && reaches_all(calls@[i]@, old(hall).tie.waiting),
        hall_kept(old(hall)@, final(hall)@),
{
    let ghost before = *hall;
    let mut calls: Vec<Vec<Ipi>> = Vec::new();
    let mut i: usize = 0;
    assert(due@.take(0) =~= Seq::<u64>::empty());
    while i < due.len()
        invariant
            i <= due@.len(),
            hall.wf(),
            me < before@.lanes.len(),
            hall@.lanes.len() == before@.lanes.len(),
            hall@ == unparked(before@, me as int, due@.take(i as int)),
            hall.teams == before.teams,
            hall.tie == before.tie,
            calls@.len() == risers(before@, me as int, due@.take(i as int)),
            forall|k: int|
                0 <= k < calls@.len() ==> word_calls((#[trigger] calls@[k])@, before.tie.waiting)
                    && reaches_all(calls@[k]@, before.tie.waiting),
            hall_kept(before@, hall@),
        decreases due@.len() - i,
    {
        let ghost mid = *hall;
        let ghost lane0 = mid@.lanes[me as int];
        let k: u64 = due[i];
        assert(due@.take(i + 1).drop_last() =~= due@.take(i as int));
        assert(due@.take(i + 1).last() == k);
        assert(mid@.lanes.len() == hall.lanes@.len());
        assert(lane0 == hall.lanes@[me as int]@);
        assert(lane_in(lane0, hall.teams@.len() as int));
        match hall.blocked.remove(k) {
            None => {
                assert(hall.blocked@ =~= mid.blocked@);
            },
            Some(task) => {
                let mut task: Task = task;
                task.transform(TaskState::Starved);
                let lane: &mut Scheduler = &mut hall.lanes[me];
                lane.push(task);
                calls.push(tie::wake_all(&hall.tie));
                proof {
                    let lane1 = lane0.pushed(task);
                    assert(hall@.lanes =~= mid@.lanes.update(me as int, lane1));
                    assert(lane_in(lane1, hall.teams@.len() as int));
                    assert forall|id: usize| #[trigger] hall@.held(id) == before@.held(id) by {
                        assert(mid@.held(id) == before@.held(id));
                        lemma_bed_left(mid@.blocked, k, id);
                        lemma_times_push(lane0.starved, task, id);
                        lemma_lanes_update(mid@.lanes, me as int, lane1, id);
                    }
                }
            },
        }
        i += 1;
    }
    assert(due@.take(i as int) =~= due@);
    calls
}

/// What follows the sleep of hart `me`: the sleepers that are due wake up, and the hart does
/// not wait any more.
pub fn awake(hall: &mut Hall, me: usize, due: &Vec<u64>) -> (calls: Vec<Vec<Ipi>>)
    requires
        old(hall).wf(),
        me < old(hall)@.lanes.len(),
    ensures
        final(hall).wf(),
        final(hall)@ == unparked(old(hall)@, me as int, due@),
        final(hall).teams == old(hall).teams,
        tie::marked(old(hall).tie, final(hall).tie, me, false),
        calls@.len() == risers(old(hall)@, me as int, due@),
        forall|i: int|
            0 <= i < calls@.len() ==> word_calls((#[trigger] calls@[i])@, old(hall).tie.waiting)
                && reaches_all(calls@[i]@, old(hall).tie.waiting),
        hall_kept(old(hall)@, final(hall)@),
{
    let calls: Vec<Vec<Ipi>> = unpark(hall, me, due);
    assert(hall@.lanes.len() == hall.lanes@.len());
    tie::wake(&mut hall.tie, me);
    calls
}

/// Whether there is work: a task is ready on some hart, or the next deadline has passed.
pub open spec fn work_there(v: HallView, next_tock: Option<u64>, now: u64) -> bool {
    ||| exists|h: int| 0 <= h < v.lanes.len() && (#[trigger] v.lanes[h]).starved.len() > 0
    ||| next_tock matches Some(at) && at <= now
}

/// Computes [`work_there`].
pub fn has_work(hall: &Hall, next_tock: Option<u64>, now: u64) -> (yes: bool)
    requires
        hall.wf(),
    ensures
        yes == work_there(hall@, next_tock, now),
{
    let mut h: usize = 0;
    while h < hall.lanes.len()
        invariant
            h <= hall.lanes@.len(),
            hall.wf(),
            forall|g: int| 0 <= g < h ==> (#[trigger] hall@.lanes[g]).starved.len() == 0,
        decreases hall.lanes@.len() - h,
    {
        assert(hall@.lanes[h as int] == hall.lanes@[h as int]@);
        if hall.lanes[h].get_len() > 0 {
            return true;
        }
        h += 1;
    }
    assert(hall@.lanes.len() == hall.lanes@.len());
    match next_tock {
        Some(at) => at <= now,
        None => false,
    }
}

/// What the watch over the machine looks at.
pub struct Probe {
    pub has_work: bool,
    /// Which harts wait.
    pub asleep: Vec<bool>,
}

/// Looks at the machine for the watch: whether there is work, and who sleeps.
pub fn round(hall: &Hall, next_tock: Option<u64>, now: u64) -> (p: Probe)
    requires
        hall.wf(),
    ensures
        p.has_work == work_there(hall@, next_tock, now),
        p.asleep@.len() == hall@.lanes.len(),
        forall|h: int|
            0 <= h < p.asleep@.len() ==> #[trigger] p.asleep@[h] == hall.tie.waiting.has(h),
{
    let mut asleep: Vec<bool> = Vec::new();
    let mut h: usize = 0;
    while h < hall.lanes.len()
        invariant
            h <= hall.lanes@.len() <= MAX_HART_SLOTS,
            asleep@.len() == h,
            forall|g: int| 0 <= g < h ==> #[trigger] asleep@[g] == hall.tie.waiting.has(g),
        decreases hall.lanes@.len() - h,
    {
        asleep.push(hall.tie.waiting.test(h));
        h += 1;
    }
    Probe { has_work: has_work(hall, next_tock, now), asleep }
}

/// Runs `f` on the number of the address space of the task that runs on hart `me`.
pub fn with_running_space<R, F: FnOnce(usize) -> R>(hall: &Hall, me: usize, f: F) -> (r: R)
    requires
        hall.wf(),
        me < hall@.lanes.len(),
        hall@.lanes[me as int].running is Some,
        f.requires((hall.teams@[hall@.lanes[me as int].running->0.team as int].space,)),
    ensures
        f.ensures((hall.teams@[hall@.lanes[me as int].running->0.team as int].space,), r),
{
    let team: usize = running_team(hall, me);
    assert(lane_in(hall@.lanes[me as int], hall.teams@.len() as int));
    f(hall.teams[team].space)
}

/// The team of the task that runs on hart `me`.
pub fn running_team(hall: &Hall, me: usize) -> (team: usize)
    requires
        me < hall@.lanes.len(),
        hall@.lanes[me as int].running is Some,
    ensures
        team == hall@.lanes[me as int].running->0.team,
{
    assert(hall@.lanes[me as int] == hall.lanes@[me as int]@);
    hall.lanes[me].running.as_ref().unwrap().team
}

/// The team of the task that runs on hart `me`, if the schedulers exist, the hart's is not
/// `busy`, and there is one.
pub fn running_team_try(hall: Option<&Hall>, me: usize, busy: bool) -> (team: Option<usize>)
    requires
        hall matches Some(h) ==> me < h@.lanes.len(),
    ensures
        team == (match hall {
            Some(h) if !busy && h@.lanes[me as int].running is Some => Some(
                h@.lanes[me as int].running->0.team,
            ),
            _ => None,
        }),
{
    match hall {
        None => None,
        Some(h) => {
            assert(h@.lanes[me as int] == h.lanes@[me as int]@);
            if busy {
                return None;
            }
            match h.lanes[me].running.as_ref() {
                Some(t) => Some(t.team),
                None => None,
            }
        },
    }
}

/// The number of the task that runs on hart `me`; [`NO_TASK_ID`] if there is none.
pub fn running_task_id(hall: &Hall, me: usize) -> (id: usize)
    requires
        me < hall@.lanes.len(),
    ensures
        id == (match hall@.lanes[me as int].running {
            Some(t) => t.id,
            None => NO_TASK_ID,
        }),
{
    assert(hall@.lanes[me as int] == hall.lanes@[me as int]@);
    match hall.lanes[me].running.as_ref() {
        Some(t) => t.id,
        None => NO_TASK_ID,
    }
}

/// The number and the name of the task that runs on hart `me`, if the schedulers exist, the
/// hart's is not `busy`, and there is one.
pub fn running_task_info(hall: Option<&Hall>, me: usize, busy: bool) -> (info: Option<
    (usize, &'static str),
>)
    requires
        hall matches Some(h) ==> me < h@.lanes.len(),
    ensures
        info == (match hall {
            Some(h) if !busy && h@.lanes[me as int].running is Some => Some(
                (h@.lanes[me as int].running->0.id, h@.lanes[me as int].running->0.name),
            ),
            _ => None,
        }),
{
    match hall {
        None => None,
        Some(h) => {
            assert(h@.lanes[me as int] == h.lanes@[me as int]@);
            if busy {
                return None;
            }
            match h.lanes[me].running.as_ref() {
                Some(t) => Some((t.id, t.name)),
                None => None,
            }
        },
    }
}

/// Lets the next ready task of hart `me` run: see [`Scheduler::starve`].
pub fn starve(hall: &mut Hall, me: usize) -> (d: Dispatch)
    requires
        old(hall).wf(),
        me < old(hall)@.lanes.len(),
        old(hall)@.lanes[me as int].running is Some,
    ensures
        final(hall).wf(),
        ({
            let lane = old(hall)@.lanes[me as int];
            let after = if lane.starved.len() == 0 {
                lane
            } else {
                lane.rotated()
            };
            &&& final(hall)@ == (HallView {
                lanes: old(hall)@.lanes.update(me as int, after),
                ..old(hall)@
            })
            &&& d == (Dispatch { pa: after.running->0.trap.pa, arm: lane.starved.len() > 0 })
        }),
        final(hall).teams == old(hall).teams,
        final(hall).tie == old(hall).tie,
        hall_kept(old(hall)@, final(hall)@),
{
    let ghost before = *hall;
    let ghost lane0 = before@.lanes[me as int];
    assert(lane0 == hall.lanes@[me as int]@);
    assert(lane_in(lane0, hall.teams@.len() as int));
    let lane: &mut Scheduler = &mut hall.lanes[me];
    let d: Dispatch = lane.starve();
    proof {
        let lane1 = hall.lanes@[me as int]@;
        assert(hall@.lanes =~= before@.lanes.update(me as int, lane1));
        assert(lane_in(lane1, hall.teams@.len() as int));
        assert forall|id: usize| #[trigger] hall@.held(id) == before@.held(id) by {
            lemma_lanes_update(before@.lanes, me as int, lane1, id);
            if lane0.starved.len() > 0 {
                lemma_rotated(lane0, id);
            }
        }
    }
    d
}

/// A deadline for the clock.
#[derive(Clone, Copy, Debug, PartialEq, Eq, Structural)]
pub struct Tock {
    pub handle: u64,
    pub at: u64,
}

/// The hall after the running task of hart `me` went to sleep until `at`, under the next
/// handle.
pub open spec fn bedded(v: HallView, me: int, at: u64) -> HallView {
    let lane = v.lanes[me];
    HallView {
        lanes: v.lanes.update(me, lane.vacated()),
        blocked: v.blocked.insert(v.next_handle, asleep(lane.running->0, at)),
        next_handle: (v.next_handle + 1) as u64,
        ..v
    }
}

/// Whether `b` is `a` after [`bedded`].
pub open spec fn lain_down(a: Hall, b: Hall, me: int, at: u64) -> bool {
    &&& b@ == bedded(a@, me, at)
    &&& b.teams == a.teams
    &&& b.tie == a.tie
}

/// Puts the task that runs on hart `me` to sleep for `ticks` from now on, and goes on with
/// another one. The sleeper stands under its handle before the clock learns of the
/// deadline.
pub fn park(hall: &mut Hall, me: usize, ticks: u64, scene: &Scene) -> (r: (Tock, Stride))
    requires
        old(hall).wf(),
        me < old(hall)@.lanes.len(),
        old(hall)@.lanes[me as int].running is Some,
        scene.now + ticks <= u64::MAX,
        old(hall)@.next_handle < u64::MAX,
        scene.busy@.len() == old(hall)@.lanes.len(),
        scene.again@.len() == old(hall)@.lanes.len(),
    ensures
        final(hall).wf(),
        r.0 == (Tock { handle: old(hall)@.next_handle, at: (scene.now + ticks) as u64 }),
        exists|mid: Hall|
            lain_down(*old(hall), mid, me as int, r.0.at) && #[trigger] strides(
                mid,
                me,
                scene.busy@,
            scene.again@,
                far(scene.next_tock, scene.now),
                *final(hall),
                r.1,
            ),
        hall_kept(old(hall)@, final(hall)@),
{
    let ghost before = *hall;
    let ghost lane0 = before@.lanes[me as int];
    assert(lane0 == hall.lanes@[me as int]@);
    assert(lane_in(lane0, hall.teams@.len() as int));
    let at: u64 = scene.now + ticks;
    let handle: u64 = hall.next_handle;
    assert(!before@.blocked.contains_key(handle));
    let lane: &mut Scheduler = &mut hall.lanes[me];
    let task: Task = lane.block(at);
    hall.next_handle = handle + 1;
    hall.blocked.insert(handle, task);
    let ghost mid = *hall;
    proof {
        assert(mid@.lanes =~= before@.lanes.update(me as int, lane0.vacated()));
        assert(lane_in(lane0.vacated(), hall.teams@.len() as int));
        lemma_bed_made(before@.blocked, handle, asleep(lane0.running->0, at), 0);
        assert(mid.wf());
        assert(mid@ =~= bedded(before@, me as int, at));
        assert forall|id: usize| #[trigger] mid@.held(id) == before@.held(id) by {
            lemma_lanes_update(before@.lanes, me as int, lane0.vacated(), id);
            lemma_bed_made(before@.blocked, handle, asleep(lane0.running->0, at), id);
        }
    }
    let stride: Stride = run(hall, me, scene);
    let r: (Tock, Stride) = (Tock { handle, at }, stride);
    assert(lain_down(before, mid, me as int, r.0.at));
    assert(strides(
        mid,
        me,
        scene.busy@,
            scene.again@,
        far(scene.next_tock, scene.now),
        *hall,
        r.1,
    ));
    r
}

/// The numbers of the sleepers, in the order in which the table walks them.
pub open spec fn sleeper_ids(t: Table<u64, Task>) -> Seq<usize> {
    t.order().map_values(|k: u64| t@[k].id)
}

/// Clears the ended tasks away: each leaves its team's list, and what is left of it is
/// handed back.
pub fn clear(hall: &mut Hall) -> (gone: Vec<Remains>)
    requires
        old(hall).wf(),
    ensures
        final(hall).wf(),
        final(hall)@ == (HallView { reaped: Seq::empty(), ..old(hall)@ }),
        final(hall).tie == old(hall).tie,
        same_teams(old(hall).teams@, final(hall).teams@),
        rolls(final(hall).teams@) == cleared(
            rolls(old(hall).teams@),
            old(hall)@.reaped,
            census_of(old(hall)@.lanes) + sleeper_ids(old(hall).blocked),
        ),
        gone@ == all_remains(old(hall)@.reaped, old(hall).teams@),
        forall|id: usize|
            final(hall)@.held(id) + times(old(hall)@.reaped, id) == #[trigger] old(hall)@.held(id),
{
    let mut alive: Vec<usize> = census(&hall.lanes);
    let ghost on_harts = alive@;
    let n: usize = hall.blocked.len();
    let mut i: usize = 0;
    while i < n
        invariant
            i <= n == hall.blocked.order().len(),
            *hall == *old(hall),
            alive@ =~= on_harts + sleeper_ids(hall.blocked).take(i as int),
        decreases n - i,
    {
        let k: u64 = hall.blocked.key_at(i);
        let id: usize = hall.blocked.get(k).unwrap().id;
        alive.push(id);
        assert(sleeper_ids(hall.blocked).take(i + 1) =~= sleeper_ids(hall.blocked).take(
            i as int,
        ).push(id));
        i += 1;
    }
    assert(sleeper_ids(hall.blocked).take(n as int) =~= sleeper_ids(hall.blocked));
    let gone: Vec<Remains> = clear_all(&mut hall.reaped, &mut hall.teams, &alive);
    assert(hall@ =~= (HallView { reaped: Seq::empty(), ..old(hall)@ }));
    gone
}

/// Whether `b` is `a` after the running task of hart `me` ended and every ended task was
/// cleared away, which left `gone`.
pub open spec fn buried(a: Hall, b: Hall, me: int, gone: Seq<Remains>) -> bool {
    let lane = a@.lanes[me];
    let lanes = a@.lanes.update(me, lane.vacated());
    let dead = a@.reaped.push(ended(lane.running->0));
    &&& b@ == (HallView { lanes, reaped: Seq::empty(), ..a@ })
    &&& same_teams(a.teams@, b.teams@)
    &&& rolls(b.teams@) == cleared(
        rolls(a.teams@),
        dead,
        census_of(lanes) + sleeper_ids(a.blocked),
    )
    &&& gone == all_remains(dead, a.teams@)
    &&& b.tie == (Tie { reaped: a.tie.reaped.wrapping_add(1), ..a.tie })
}

/// Ends the task that runs on hart `me`, clears the ended tasks away and goes on with another
/// one.
pub fn reap(hall: &mut Hall, me: usize, scene: &Scene) -> (r: (Vec<Remains>, Stride))
    requires
        old(hall).wf(),
        me < old(hall)@.lanes.len(),
        old(hall)@.lanes[me as int].running is Some,
        scene.busy@.len() == old(hall)@.lanes.len(),
        scene.again@.len() == old(hall)@.lanes.len(),
    ensures
        final(hall).wf(),
        exists|mid: Hall| #[trigger]
            buried(*old(hall), mid, me as int, r.0@) && strides(
                mid,
                me,
                scene.busy@,
                scene.again@,
                far(scene.next_tock, scene.now),
                *final(hall),
                r.1,
            ),
{
    let ghost before = *hall;
    let ghost lane0 = before@.lanes[me as int];
    assert(lane0 == hall.lanes@[me as int]@);
    assert(lane_in(lane0, hall.teams@.len() as int));
    let lane: &mut Scheduler = &mut hall.lanes[me];
    lane.reap(&mut hall.reaped, &mut hall.tie);
    proof {
        assert(hall@.lanes =~= before@.lanes.update(me as int, lane0.vacated()));
        assert(lane_in(lane0.vacated(), hall.teams@.len() as int));
        assert(hall.wf());
    }
    let gone: Vec<Remains> = clear(hall);
    let ghost mid = *hall;
    let stride: Stride = run(hall, me, scene);
    let r: (Vec<Remains>, Stride) = (gone, stride);
    assert(buried(before, mid, me as int, r.0@));
    assert(strides(
        mid,
        me,
        scene.busy@,
        scene.again@,
        far(scene.next_tock, scene.now),
        *hall,
        r.1,
    ));
    r
}

/// One line of the report on where a task stands. `hit` says that it is the task that was
/// looked for.
#[derive(Clone, Copy, Debug, PartialEq, Eq, Structural)]
pub enum Note {
    /// The hart's scheduler is locked; `own` by the hart that looks.
    Locked { hart: usize, own: bool },
    /// Nothing runs on the hart.
    Vacant { hart: usize, own: bool },
    /// The task `id` runs on the hart.
    Running { hart: usize, own: bool, id: usize, hit: bool },
    /// The task stands at this place of the hart's queue.
    Starved { hart: usize, at: usize },
    /// The sleepers are locked.
    BlockedLocked,
    /// So many sleep.
    BlockedCount(usize),
    /// The task `id` sleeps under the handle.
    Blocked { handle: u64, id: usize, hit: bool },
    /// The ended tasks are locked.
    ReapedLocked,
    /// So many have ended.
    ReapedCount(usize),
    /// The task `id` has ended.
    Reaped { at: usize, id: usize, hit: bool },
}

/// Which containers are locked while the report is made.
pub struct Locks {
    pub lanes: Vec<bool>,
    pub blocked: bool,
    pub reaped: bool,
}

/// The places of the task `id` in a hart's queue.
pub open spec fn queue_notes(s: Seq<Task>, hart: usize, id: usize) -> Seq<Note>
    decreases s.len(),
{
    if s.len() == 0 {
        Seq::empty()
    } else {
        let rest = queue_notes(s.drop_last(), hart, id);
        if s.last().id == id {
            rest.push(Note::Starved { hart, at: (s.len() - 1) as usize })
        } else {
            rest
        }
    }
}

/// The report on one hart.
pub open spec fn lane_notes(l: Lane, own: bool, locked: bool, id: usize) -> Seq<Note> {
    if locked {
        seq![Note::Locked { hart: l.hart, own }]
    } else {
        let on = match l.running {
            Some(t) => Note::Running { hart: l.hart, own, id: t.id, hit: t.id == id },
            None => Note::Vacant { hart: l.hart, own },
        };
        seq![on] + queue_notes(l.starved, l.hart, id)
    }
}

/// The report on the harts.
pub open spec fn lanes_notes(
    lanes: Seq<Lane>,
    me: usize,
    locked: Seq<bool>,
    id: usize,
) -> Seq<Note>
    decreases lanes.len(),
{
    if lanes.len() == 0 {
        Seq::empty()
    } else {
        let l = lanes.last();
        lanes_notes(lanes.drop_last(), me, locked, id) + lane_notes(
            l,
            l.hart == me,
            locked[lanes.len() - 1],
            id,
        )
    }
}

/// The report on the sleepers.
pub open spec fn bed_notes(t: Table<u64, Task>, locked: bool, id: usize) -> Seq<Note> {
    if locked {
        seq![Note::BlockedLocked]
    } else {
        seq![Note::BlockedCount(t.order().len() as usize)] + t.order().map_values(
            |k: u64| Note::Blocked { handle: k, id: t@[k].id, hit: t@[k].id == id },
        )
    }
}

/// The report on the ended tasks.
pub open spec fn husk_notes(s: Seq<Task>, locked: bool, id: usize) -> Seq<Note> {
    if locked {
        seq![Note::ReapedLocked]
    } else {
        seq![Note::ReapedCount(s.len() as usize)] + Seq::new(
            s.len(),
            |i: int| Note::Reaped { at: i as usize, id: s[i].id, hit: s[i].id == id },
        )
    }
}

fn note_queue(s: &VecDeque<Task>, hart: usize, id: usize, out: &mut Vec<Note>)
    ensures
        final(out)@ == old(out)@ + queue_notes(s@, hart, id),
{
    let ghost before = out@;
    let n: usize = s.len();
    let mut i: usize = 0;
    assert(s@.take(0) =~= Seq::<Task>::empty());
    assert(out@ =~= before + queue_notes(s@.take(0), hart, id));
    while i < n
        invariant
            i <= n == s@.len(),
            out@ == before + queue_notes(s@.take(i as int), hart, id),
        decreases n - i,
    {
        assert(s@.take(i + 1).drop_last() =~= s@.take(i as int));
        let ghost so_far = queue_notes(s@.take(i as int), hart, id);
        if s[i].id == id {
            out.push(Note::Starved { hart, at: i });
            assert(out@ =~= before + so_far.push(Note::Starved { hart, at: i }));
        }
        i += 1;
    }
    assert(s@.take(n as int) =~= s@);
}

fn note_lane(lane: &Scheduler, own: bool, locked: bool, id: usize, out: &mut Vec<Note>)
    ensures
        final(out)@ == old(out)@ + lane_notes(lane@, own, locked, id),
{
    let ghost before = out@;
    if locked {
        out.push(Note::Locked { hart: lane.hart, own });
        assert(out@ =~= before + seq![Note::Locked { hart: lane.hart, own }]);
        return;
    }
    let on: Note = match lane.running.as_ref() {
        Some(t) => Note::Running { hart: lane.hart, own, id: t.id, hit: t.id == id },
        None => Note::Vacant { hart: lane.hart, own },
    };
    out.push(on);
    assert(out@ =~= before + seq![on]);
    note_queue(&lane.starved, lane.hart, id, out);
    assert(out@ =~= before + (seq![on] + queue_notes(lane.starved@, lane.hart, id)));
}

/// Reports where the task `id` stands: hart by hart, then the sleepers, then the ended
/// tasks. What is locked is passed over.
pub fn scan(hall: &Hall, me: usize, id: usize, locks: &Locks) -> (notes: Vec<Note>)
    requires
        hall.wf(),
        locks.lanes@.len() == hall@.lanes.len(),
    ensures
        notes@ == lanes_notes(hall@.lanes, me, locks.lanes@, id) + bed_notes(
            hall.blocked,
            locks.blocked,
            id,
        ) + husk_notes(hall@.reaped, locks.reaped, id),
{
    let mut out: Vec<Note> = Vec::new();
    let mut h: usize = 0;
    assert(hall@.lanes.take(0) =~= Seq::<Lane>::empty());
    while h < hall.lanes.len()
        invariant
            h <= hall.lanes@.len(),
            hall.wf(),
            locks.lanes@.len() == hall@.lanes.len(),
            out@ == lanes_notes(hall@.lanes.take(h as int), me, locks.lanes@, id),
        decreases hall.lanes@.len() - h,
    {
        assert(hall@.lanes.len() == hall.lanes@.len());
        assert(hall@.lanes.take(h + 1).drop_last() =~= hall@.lanes.take(h as int));
        assert(hall@.lanes.take(h + 1).last() == hall.lanes@[h as int]@);
        note_lane(&hall.lanes[h], h == me, locks.lanes[h], id, &mut out);
        h += 1;
    }
    assert(hall@.lanes.take(h as int) =~= hall@.lanes);
    let ghost first = out@;
    if locks.blocked {
        out.push(Note::BlockedLocked);
        assert(out@ =~= first + bed_notes(hall.blocked, locks.blocked, id));
    } else {
        let n: usize = hall.blocked.len();
        out.push(Note::BlockedCount(n));
        let ghost full = bed_notes(hall.blocked, false, id);
        let mut i: usize = 0;
        while i < n
            invariant
                i <= n == hall.blocked.order().len(),
                full == bed_notes(hall.blocked, false, id),
                out@ =~= first + full.take(i + 1),
            decreases n - i,
        {
            let k: u64 = hall.blocked.key_at(i);
            let who: usize = hall.blocked.get(k).unwrap().id;
            out.push(Note::Blocked { handle: k, id: who, hit: who == id });
            assert(full.take(i + 2) =~= full.take(i + 1).push(full[i + 1]));
            i += 1;
        }
        assert(full.take(n + 1) =~= full);
    }
    let ghost second = out@;
    if locks.reaped {
        out.push(Note::ReapedLocked);
        assert(out@ =~= second + husk_notes(hall@.reaped, locks.reaped, id));
    } else {
        let n: usize = hall.reaped.len();
        out.push(Note::ReapedCount(n));
        let ghost full = husk_notes(hall@.reaped, false, id);
        let mut i: usize = 0;
        while i < n
            invariant
                i <= n == hall.reaped@.len(),
                full == husk_notes(hall@.reaped, false, id),
                out@ =~= second + full.take(i + 1),
            decreases n - i,
        {
            let who: usize = hall.reaped[i].id;
            out.push(Note::Reaped { at: i, id: who, hit: who == id });
            assert(full.take(i + 2) =~= full.take(i + 1).push(full[i + 1]));
            i += 1;
        }
        assert(full.take(n + 1) =~= full);
    }
    out
}

/// Whether the task `id` stands in `s`.
fn stands_in(s: &VecDeque<Task>, id: usize) -> (yes: bool)
    ensures
        yes == (times(s@, id) > 0),
{
    let n: usize = s.len();
    let mut i: usize = 0;
    assert(s@.take(0) =~= Seq::<Task>::empty());
    while i < n
        invariant
            i <= n == s@.len(),
            times(s@.take(i as int), id) == 0,
        decreases n - i,
    {
        assert(s@.take(i + 1).drop_last() =~= s@.take(i as int));
        if s[i].id == id {
            proof {
                lemma_times_part(s@, i + 1, id);
            }
            return true;
        }
        i += 1;
    }
    assert(s@.take(n as int) =~= s@);
    false
}

proof fn lemma_times_part(s: Seq<Task>, n: int, id: usize)
    requires
        0 <= n <= s.len(),
    ensures
        times(s.take(n), id) <= times(s, id),
    decreases s.len() - n,
{
    if n < s.len() {
        assert(s.take(n + 1).drop_last() =~= s.take(n));
        lemma_times_part(s, n + 1, id);
    } else {
        assert(s.take(n) =~= s);
    }
}

proof fn lemma_lanes_part(lanes: Seq<Lane>, n: int, id: usize)
    requires
        0 <= n <= lanes.len(),
    ensures
        lanes_times(lanes.take(n), id) <= lanes_times(lanes, id),
    decreases lanes.len() - n,
{
    if n < lanes.len() {
        assert(lanes.take(n + 1).drop_last() =~= lanes.take(n));
        lemma_lanes_part(lanes, n + 1, id);
    } else {
        assert(lanes.take(n) =~= lanes);
    }
}

/// Whether any container holds the task `id`.
pub fn is_held(hall: &Hall, id: usize) -> (yes: bool)
    requires
        hall.wf(),
    ensures
        yes == (hall@.held(id) > 0),
{
    let mut h: usize = 0;
    assert(hall@.lanes.take(0) =~= Seq::<Lane>::empty());
    while h < hall.lanes.len()
        invariant
            h <= hall.lanes@.len(),
            lanes_times(hall@.lanes.take(h as int), id) == 0,
        decreases hall.lanes@.len() - h,
    {
        assert(hall@.lanes.len() == hall.lanes@.len());
        assert(hall@.lanes.take(h + 1).drop_last() =~= hall@.lanes.take(h as int));
        assert(hall@.lanes.take(h + 1).last() == hall.lanes@[h as int]@);
        let on: bool = match hall.lanes[h].running.as_ref() {
            Some(t) => t.id == id,
            None => false,
        };
        if on || stands_in(&hall.lanes[h].starved, id) {
            proof {
                assert(lane_times(hall.lanes@[h as int]@, id) > 0);
                lemma_lanes_part(hall@.lanes, h + 1, id);
            }
            return true;
        }
        h += 1;
    }
    assert(hall@.lanes.take(h as int) =~= hall@.lanes);
    let n: usize = hall.blocked.len();
    let mut i: usize = 0;
    proof {
        hall@.blocked.dom().lemma_len_filter(|k: u64| hall@.blocked[k].id == id);
    }
    while i < n
        invariant
            i <= n == hall.blocked.order().len(),
            beds(hall@.blocked, id).finite(),
            forall|j: int| 0 <= j < i ==> hall@.blocked[#[trigger] hall.blocked.order()[j]].id != id,
        decreases n - i,
    {
        let k: u64 = hall.blocked.key_at(i);
        if hall.blocked.get(k).unwrap().id == id {
            proof {
                assert(beds(hall@.blocked, id).contains(k));
                assert(beds(hall@.blocked, id).len() > 0);
            }
            return true;
        }
        i += 1;
    }
    proof {
        assert forall|k: u64| !beds(hall@.blocked, id).contains(k) by {
            if hall@.blocked.contains_key(k) {
                assert(hall.blocked.order().contains(k));
            }
        }
        assert(beds(hall@.blocked, id) =~= Set::<u64>::empty());
    }
    stands_in(&hall.reaped, id)
}

/// Lets the task in hand be changed, if no container holds it as well: to change a task is
/// to be its only holder. Otherwise the report on where it stands comes back.
pub fn task_mut(hall: &Hall, me: usize, task: &Task, locks: &Locks) -> (r: Result<(), Vec<Note>>)
    requires
        hall.wf(),
        locks.lanes@.len() == hall@.lanes.len(),
    ensures
        r is Ok <==> hall@.held(task.id) == 0,
        r matches Err(notes) ==> notes@ == lanes_notes(hall@.lanes, me, locks.lanes@, task.id)
            + bed_notes(hall.blocked, locks.blocked, task.id) + husk_notes(
            hall@.reaped,
            locks.reaped,
            task.id,
        ),
{
    if is_held(hall, task.id) {
        Err(scan(hall, me, task.id, locks))
    } else {
        Ok(())
    }
}

/// The report on the task in hand, if a container holds it as well.
pub fn probe_strong(hall: &Hall, me: usize, task: &Task, locks: &Locks) -> (r: Option<Vec<Note>>)
    requires
        hall.wf(),
        locks.lanes@.len() == hall@.lanes.len(),
    ensures
        r is None <==> hall@.held(task.id) == 0,
        r matches Some(notes) ==> notes@ == lanes_notes(hall@.lanes, me, locks.lanes@, task.id)
            + bed_notes(hall.blocked, locks.blocked, task.id) + husk_notes(
            hall@.reaped,
            locks.reaped,
            task.id,
        ),
{
    match task_mut(hall, me, task, locks) {
        Ok(_) => None,
        Err(notes) => Some(notes),
    }
}

} // verus!
