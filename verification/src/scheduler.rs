//! The plain scheduler: one queue for each hart, sleepers and ended tasks in common.
//!
//! A task is a value, and whoever holds the value holds the task: it stands in one
//! container at a time. What only the machine can do is left to the caller: [`run`] says
//! which trap frame to return to and whether to arm the timer, or that the hart is to halt
//! or to sleep.
use std::collections::VecDeque;
use vstd::prelude::*;
use crate::bits::{Ipi, MAX_HART_SLOTS};
use crate::bits::{reaches_all, word_calls};
use crate::task::{BlockReason, Task, TaskState};
use crate::team::Team;
use crate::tie;
use crate::tie::Tie;

pub mod crowd;
pub mod lanes;
pub mod moves;
pub mod turns;

use lanes::{
    Fetched, Remains, census, clear_all, go, list_ids,
};
use lanes::{
    all_remains, census_of, cleared, ids_of, lane_in, lanes_in, lanes_times, lanes_wf, ran, rolls,
    same_teams, times, views,
};
use lanes::{
    lemma_lanes_update, lemma_ran, lemma_ran_in, lemma_rotated, lemma_times_add, lemma_times_push,
};

verus! {

/// How far the timer of a sleeping hart is put off.
pub const TIMER_NEVER: u64 = 0x1000_0000_0000_0000;

/// What stands for the number of the running task where there is none.
pub const NO_TASK_ID: usize = usize::MAX;

/// The time slice of a task that comes on, in timer ticks.
pub const TIME_SLICE: u32 = 8;

/// A trap frame to return to.
#[derive(Clone, Copy, Debug, PartialEq, Eq, Structural)]
pub struct Dispatch {
    /// Where it lies.
    pub pa: usize,
    /// Whether a task came on and the timer is to be armed for it.
    pub arm: bool,
}

/// What one hart's scheduler holds.
#[verifier::ext_equal]
pub struct Lane {
    pub hart: usize,
    pub top: usize,
    pub running: Option<Task>,
    pub starved: Seq<Task>,
}

/// The scheduler of one hart.
pub struct Scheduler {
    /// The hart.
    pub hart: usize,
    /// The upper end of its trap stack.
    pub top: usize,
    /// The task on the hart.
    pub running: Option<Task>,
    /// The tasks that are ready, first in first out.
    pub starved: VecDeque<Task>,
    /// How many are ready, for others to read.
    pub starved_len: usize,
}

/// `t`, come on a hart whose trap stack ends at `top`.
pub open spec fn prepared(t: Task, top: usize) -> Task {
    Task { state: TaskState::Running { ticks_left: TIME_SLICE }, kernel_sp: top, ..t }
}

/// `t`, ready to run.
pub open spec fn readied(t: Task) -> Task {
    Task { state: TaskState::Starved, ..t }
}

impl Lane {
    /// Whether each task is in a state that suits its place.
    pub open spec fn ok(self) -> bool {
        &&& self.running matches Some(t) ==> t.state is Running && t.state->ticks_left >= 1
        &&& forall|i: int| 0 <= i < self.starved.len() ==> (#[trigger] self.starved[i]).state is Starved
    }

    /// After `t` came on.
    pub open spec fn seated(self, t: Task) -> Lane {
        Lane { running: Some(prepared(t, self.top)), ..self }
    }

    /// After the first ready task was taken.
    pub open spec fn popped(self) -> Lane {
        Lane { starved: self.starved.subrange(1, self.starved.len() as int), ..self }
    }

    /// After `t` joined the queue.
    pub open spec fn pushed(self, t: Task) -> Lane {
        Lane { starved: self.starved.push(t), ..self }
    }

    /// After the hart was vacated.
    pub open spec fn vacated(self) -> Lane {
        Lane { running: None, ..self }
    }

    /// After the running task made way to the first ready one.
    pub open spec fn rotated(self) -> Lane {
        let queue = self.vacated().pushed(readied(self.running->0));
        queue.popped().seated(queue.starved[0])
    }

    /// After the first ready task came on.
    pub open spec fn filled(self) -> Lane {
        self.popped().seated(self.starved[0])
    }

    /// After a timer tick hit the running task.
    pub open spec fn ticked(self) -> Lane {
        let t = self.running->0;
        if t.state->ticks_left > 1 {
            Lane {
                running: Some(
                    Task {
                        state: TaskState::Running { ticks_left: (t.state->ticks_left - 1) as u32 },
                        ..t
                    },
                ),
                ..self
            }
        } else if self.starved.len() == 0 {
            self
        } else {
            self.rotated()
        }
    }
}

impl View for Scheduler {
    type V = Lane;

    open spec fn view(&self) -> Lane {
        Lane {
            hart: self.hart,
            top: self.top,
            running: self.running,
            starved: self.starved@,
        }
    }
}

impl Scheduler {
    /// Whether the mirrored length is right and each task suits its place.
    pub open spec fn wf(self) -> bool {
        self.starved_len == self.starved@.len() && self@.ok()
    }

    /// An idle hart.
    pub fn new(hart: usize, top: usize) -> (s: Scheduler)
        ensures
            s.wf(),
            s@ == (Lane { hart, top, running: None, starved: Seq::empty() }),
    {
        Scheduler { hart, top, running: None, starved: VecDeque::new(), starved_len: 0 }
    }

    /// How many tasks are ready.
    pub fn get_len(&self) -> (n: usize)
        requires
            self.wf(),
        ensures
            n == self@.starved.len(),
    {
        self.starved_len
    }

    /// Brings the mirrored length up to date.
    fn set_len(&mut self)
        ensures
            *final(self) == (Scheduler { starved_len: old(self).starved.len(), ..*old(self) }),
            final(self).starved_len == final(self).starved@.len(),
    {
        self.starved_len = self.starved.len();
    }

    /// Puts a ready task at the end of the queue.
    pub fn push(&mut self, task: Task)
        requires
            old(self).wf(),
            task.state is Starved,
        ensures
            final(self).wf(),
            final(self)@ == old(self)@.pushed(task),
    {
        self.starved.push_back(task);
        self.set_len();
    }

    /// Takes the first ready task.
    pub fn pop(&mut self) -> (t: Option<Task>)
        requires
            old(self).wf(),
        ensures
            final(self).wf(),
            old(self)@.starved.len() == 0 ==> t is None && final(self)@ == old(self)@,
            old(self)@.starved.len() > 0 ==> t == Some(old(self)@.starved[0]) && final(self)@
                == old(self)@.popped(),
    {
        let t: Option<Task> = self.starved.pop_front();
        self.set_len();
        t
    }

    /// As [`Scheduler::pop`], for another hart: nothing comes out where the queue is `busy`.
    pub fn try_pop(&mut self, busy: bool) -> (t: Option<Task>)
        requires
            old(self).wf(),
        ensures
            final(self).wf(),
            busy || old(self)@.starved.len() == 0 ==> t is None && final(self)@ == old(self)@,
            !busy && old(self)@.starved.len() > 0 ==> t == Some(old(self)@.starved[0])
                && final(self)@ == old(self)@.popped(),
    {
        if busy {
            return None;
        }
        self.pop()
    }

    /// Makes `task` ready to come on this hart: a full time slice, and this hart's trap
    /// stack.
    pub fn prepare(&self, task: &mut Task)
        requires
            old(task).state is Starved,
        ensures
            *final(task) == prepared(*old(task), self@.top),
    {
        task.transform(TaskState::Running { ticks_left: TIME_SLICE });
        task.kernel_sp = self.top;
    }

    /// Puts `task` on the idle hart.
    pub fn replace(&mut self, task: Task) -> (d: Dispatch)
        requires
            old(self).wf(),
            old(self)@.running is None,
            task.state is Starved,
        ensures
            final(self).wf(),
            final(self)@ == old(self)@.seated(task),
            d == (Dispatch { pa: task.trap.pa, arm: true }),
    {
        let mut task: Task = task;
        self.prepare(&mut task);
        let pa: usize = task.trap.pa;
        self.running = Some(task);
        Dispatch { pa, arm: true }
    }

    /// Puts the task `cur`, which has left the hart, at the end of the queue and takes the
    /// first one.
    pub fn rotate(&mut self, cur: Task) -> (next: Task)
        requires
            old(self).wf(),
            cur.state is Running,
        ensures
            final(self).wf(),
            next == old(self)@.pushed(readied(cur)).starved[0],
            final(self)@ == old(self)@.pushed(readied(cur)).popped(),
    {
        let mut cur: Task = cur;
        cur.transform(TaskState::Starved);
        self.push(cur);
        self.pop().unwrap()
    }

    /// Lets the next ready task run, whatever is left of the running one's time slice. With
    /// no other task it goes on.
    pub fn starve(&mut self) -> (d: Dispatch)
        requires
            old(self).wf(),
            old(self)@.running is Some,
        ensures
            final(self).wf(),
            old(self)@.starved.len() == 0 ==> final(self)@ == old(self)@ && d == (Dispatch {
                pa: old(self)@.running->0.trap.pa,
                arm: false,
            }),
            old(self)@.starved.len() > 0 ==> final(self)@ == old(self)@.rotated() && d == (
            Dispatch { pa: old(self)@.starved[0].trap.pa, arm: true }),
    {
        let cur: Task = self.running.take().unwrap();
        if self.starved.len() == 0 {
            let pa: usize = cur.trap.pa;
            self.running = Some(cur);
            return Dispatch { pa, arm: false };
        }
        let next: Task = self.rotate(cur);
        self.replace(next)
    }

    /// A timer tick: the running task goes on while it has time left or nobody else is ready,
    /// and makes way otherwise.
    pub fn tick(&mut self) -> (d: Dispatch)
        requires
            old(self).wf(),
            old(self)@.running is Some,
        ensures
            final(self).wf(),
            final(self)@ == old(self)@.ticked(),
            d.pa == final(self)@.running->0.trap.pa,
            d.arm <==> old(self)@.running->0.state->ticks_left <= 1 && old(self)@.starved.len() > 0,
    {
        let mut cur: Task = self.running.take().unwrap();
        let ticks_left: u32 = match cur.state() {
            TaskState::Running { ticks_left } => ticks_left,
            _ => 1,
        };
        if ticks_left > 1 {
            cur.dec_ticks_left();
            let pa: usize = cur.trap.pa;
            self.running = Some(cur);
            return Dispatch { pa, arm: false };
        }
        if self.starved.len() == 0 {
            let pa: usize = cur.trap.pa;
            self.running = Some(cur);
            return Dispatch { pa, arm: false };
        }
        let next: Task = self.rotate(cur);
        self.replace(next)
    }

    /// Takes the running task off the hart, blocked until `wake_at`.
    pub fn block(&mut self, wake_at: u64) -> (t: Task)
        requires
            old(self).wf(),
            old(self)@.running is Some,
        ensures
            final(self).wf(),
            final(self)@ == old(self)@.vacated(),
            t == asleep(old(self)@.running->0, wake_at),
    {
        self.suspend(BlockReason::Park { wake_at })
    }

    /// Takes the running task off the hart, blocked for `reason`.
    pub fn suspend(&mut self, reason: BlockReason) -> (t: Task)
        requires
            old(self).wf(),
            old(self)@.running is Some,
        ensures
            final(self).wf(),
            final(self)@ == old(self)@.vacated(),
            t == (Task { state: TaskState::Blocked { reason }, ..old(self)@.running->0 }),
    {
        let mut task: Task = self.running.take().unwrap();
        task.transform(TaskState::Blocked { reason });
        task
    }

    /// Puts the first ready task on the idle hart, if there is one.
    pub fn fill(&mut self) -> (d: Option<Dispatch>)
        requires
            old(self).wf(),
            old(self)@.running is None,
        ensures
            final(self).wf(),
            old(self)@.starved.len() == 0 ==> d is None && final(self)@ == old(self)@,
            old(self)@.starved.len() > 0 ==> final(self)@ == old(self)@.filled() && d == Some(
                Dispatch { pa: old(self)@.starved[0].trap.pa, arm: true },
            ),
    {
        match self.pop() {
            None => None,
            Some(next) => Some(self.replace(next)),
        }
    }

    /// Puts the running task to sleep among the `blocked` ones and lets the next ready task
    /// run, if there is one.
    pub fn park(&mut self, wake_at: u64, blocked: &mut VecDeque<Task>) -> (d: Option<Dispatch>)
        requires
            old(self).wf(),
            old(self)@.running is Some,
        ensures
            final(self).wf(),
            final(blocked)@ == old(blocked)@.push(asleep(old(self)@.running->0, wake_at)),
            old(self)@.starved.len() == 0 ==> d is None && final(self)@ == old(self)@.vacated(),
            old(self)@.starved.len() > 0 ==> final(self)@ == old(self)@.vacated().filled() && d
                == Some(Dispatch { pa: old(self)@.starved[0].trap.pa, arm: true }),
    {
        let task: Task = self.block(wake_at);
        blocked.push_back(task);
        self.fill()
    }

    /// Ends the running task: it joins the `reaped` ones, to be cleared away once nothing
    /// uses its stack.
    pub fn reap(&mut self, reaped: &mut VecDeque<Task>, tie: &mut Tie)
        requires
            old(self).wf(),
            old(self)@.running is Some,
        ensures
            final(self).wf(),
            final(self)@ == old(self)@.vacated(),
            final(reaped)@ == old(reaped)@.push(ended(old(self)@.running->0)),
            *final(tie) == (Tie { reaped: old(tie).reaped.wrapping_add(1), ..*old(tie) }),
    {
        let mut exited: Task = self.running.take().unwrap();
        exited.transform(TaskState::Reaped);
        reaped.push_back(exited);
        tie::exit(tie);
    }
}

/// `t`, asleep until `wake_at`.
pub open spec fn asleep(t: Task, wake_at: u64) -> Task {
    Task { state: TaskState::Blocked { reason: BlockReason::Park { wake_at } }, ..t }
}

/// `t`, over.
pub open spec fn ended(t: Task) -> Task {
    Task { state: TaskState::Reaped, ..t }
}

/// What the whole scheduler holds.
#[verifier::ext_equal]
pub struct FloorView {
    pub lanes: Seq<Lane>,
    pub blocked: Seq<Task>,
    pub reaped: Seq<Task>,
}

/// The scheduler of the machine.
pub struct Floor {
    /// One scheduler for each hart.
    pub lanes: Vec<Scheduler>,
    /// The sleepers, in the order in which they went to sleep.
    pub blocked: VecDeque<Task>,
    /// The ended tasks that are still to be cleared away.
    pub reaped: VecDeque<Task>,
    /// The teams, by number.
    pub teams: Vec<Team>,
    /// What ties the harts together.
    pub tie: Tie,
}

impl View for Floor {
    type V = FloorView;

    open spec fn view(&self) -> FloorView {
        FloorView {
            lanes: views(self.lanes@),
            blocked: self.blocked@,
            reaped: self.reaped@,
        }
    }
}

impl FloorView {
    /// In how many places the task `id` stands.
    pub open spec fn held(self, id: usize) -> nat {
        lanes_times(self.lanes, id) + times(self.blocked, id) + times(self.reaped, id)
    }

    /// Whether every task has a team among `n`.
    pub open spec fn teamed(self, n: int) -> bool {
        &&& lanes_in(self.lanes, n)
        &&& forall|i: int| 0 <= i < self.blocked.len() ==> (#[trigger] self.blocked[i]).team < n
        &&& forall|i: int| 0 <= i < self.reaped.len() ==> (#[trigger] self.reaped[i]).team < n
    }
}

/// Whether every task is in as many places in `b` as in `a`.
pub open spec fn kept(a: FloorView, b: FloorView) -> bool {
    forall|id: usize| #[trigger] b.held(id) == a.held(id)
}

impl Floor {
    /// Whether each hart is in order, each task suits its place, and each has a team.
    pub open spec fn wf(self) -> bool {
        &&& lanes_wf(self.lanes@)
        &&& forall|i: int|
            0 <= i < self.blocked@.len() ==> (#[trigger] self.blocked@[i]).state is Blocked
        &&& forall|i: int|
            0 <= i < self.reaped@.len() ==> (#[trigger] self.reaped@[i]).state is Reaped
        &&& self@.teamed(self.teams@.len() as int)
    }
}

/// A machine with one hart for each trap stack.
pub fn init(tops: &Vec<usize>) -> (floor: Floor)
    requires
        0 < tops@.len() <= MAX_HART_SLOTS,
    ensures
        floor.wf(),
        floor@.lanes.len() == tops@.len(),
        forall|h: int|
            0 <= h < tops@.len() ==> #[trigger] floor@.lanes[h] == (Lane {
                hart: h as usize,
                top: tops@[h],
                running: None,
                starved: Seq::empty(),
            }),
        floor@.blocked.len() == 0 && floor@.reaped.len() == 0 && floor.teams@.len() == 0,
        floor.tie.pushed == 0 && floor.tie.reaped == 0 && floor.tie.arrived == 0,
        !floor.tie.halting,
        forall|h: int| !floor.tie.waiting.has(h),
{
    let mut lanes: Vec<Scheduler> = Vec::new();
    let mut h: usize = 0;
    while h < tops.len()
        invariant
            h <= tops@.len() <= MAX_HART_SLOTS,
            lanes@.len() == h,
            forall|i: int|
                0 <= i < h ==> (#[trigger] lanes@[i]).wf() && lanes@[i]@ == (Lane {
                    hart: i as usize,
                    top: tops@[i],
                    running: None,
                    starved: Seq::empty(),
                }),
        decreases tops@.len() - h,
    {
        lanes.push(Scheduler::new(h, tops[h]));
        h += 1;
    }
    Floor {
        lanes,
        blocked: VecDeque::new(),
        reaped: VecDeque::new(),
        teams: Vec::new(),
        tie: Tie::new(),
    }
}

/// Whether `b` is `a` after the new task joined its team and the queue of hart `me`, and
/// `calls` wake the sleeping harts.
pub open spec fn admitted(a: Floor, b: Floor, me: usize, task: Task, calls: Seq<Ipi>) -> bool {
    &&& b@ == (FloorView {
        lanes: a@.lanes.update(me as int, a@.lanes[me as int].pushed(task)),
        ..a@
    })
    &&& same_teams(a.teams@, b.teams@)
    &&& rolls(b.teams@) == rolls(a.teams@).update(
        task.team as int,
        rolls(a.teams@)[task.team as int].push(task.id),
    )
    &&& b.tie == (Tie { pushed: a.tie.pushed.wrapping_add(1), ..a.tie })
    &&& word_calls(calls, a.tie.waiting)
    &&& reaches_all(calls, a.tie.waiting)
}

/// Lets a new task in: it joins its team and the queue of hart `me`. The calls wake the
/// sleeping harts.
pub fn push(floor: &mut Floor, me: usize, task: Task) -> (calls: Vec<Ipi>)
    requires
        old(floor).wf(),
        me < old(floor)@.lanes.len(),
        task.state is Starved,
        task.team < old(floor).teams@.len(),
    ensures
        final(floor).wf(),
        admitted(*old(floor), *final(floor), me, task, calls@),
        forall|id: usize| #[trigger]
            final(floor)@.held(id) == old(floor)@.held(id) + (if id == task.id {
                1nat
            } else {
                0
            }),
{
    let ghost before = floor@;
    assert(before.lanes[me as int] == floor.lanes@[me as int]@);
    assert(lane_in(before.lanes[me as int], floor.teams@.len() as int));
    let team: &mut Team = &mut floor.teams[task.team];
    team.push_task(task.id);
    let lane: &mut Scheduler = &mut floor.lanes[me];
    lane.push(task);
    tie::push(&mut floor.tie);
    proof {
        let l = before.lanes[me as int].pushed(task);
        assert(floor@.lanes =~= before.lanes.update(me as int, l));
        assert(lane_in(l, floor.teams@.len() as int));
        assert forall|id: usize| #[trigger]
            floor@.held(id) == before.held(id) + (if id == task.id {
                1nat
            } else {
                0
            }) by {
            lemma_times_push(before.lanes[me as int].starved, task, id);
            lemma_lanes_update(before.lanes, me as int, l, id);
        }
        assert(rolls(floor.teams@) =~= rolls(old(floor).teams@).update(
            task.team as int,
            rolls(old(floor).teams@)[task.team as int].push(task.id),
        ));
    }
    tie::wake_all(&floor.tie)
}

/// What a hart is to do next.
pub enum Step {
    /// Return to this frame.
    Run(Dispatch),
    /// Halt: every task is over.
    Halt,
    /// Sleep until an interrupt, then [`rouse`] and [`run`] again. With nobody asleep the
    /// timer is put off by [`TIMER_NEVER`] first.
    Sleep { far: bool },
}

/// The step that `f` is, with or without sleepers.
pub open spec fn step_of(f: Fetched, sleepers: bool) -> Step {
    match f {
        Fetched::Run(d) => Step::Run(d),
        Fetched::Halt => Step::Halt,
        Fetched::Wait => Step::Sleep { far: !sleepers },
    }
}

/// Whether running hart `me` on `a` gives `step` and leaves `b`.
pub open spec fn steps(
    a: Floor,
    me: usize,
    busy: Seq<bool>,
    again: Seq<bool>,
    b: Floor,
    step: Step,
) -> bool {
    &&& exists|f: Fetched| #[trigger]
        ran(a@.lanes, a.tie, me, busy, again, b@.lanes, b.tie, f) && step == step_of(
            f,
            a@.blocked.len() > 0,
        )
    &&& b@.blocked == a@.blocked
    &&& b@.reaped == a@.reaped
    &&& b.teams == a.teams
}

/// What hart `me` does next: the running task goes on or makes way; an idle hart takes its
/// own first ready task, or that of another hart, or sleeps. `busy` and `again` are the
/// harts whose queues cannot be touched on the first and on the second look.
pub fn run(floor: &mut Floor, me: usize, busy: &Vec<bool>, again: &Vec<bool>) -> (step: Step)
    requires
        old(floor).wf(),
        me < old(floor)@.lanes.len(),
        busy@.len() == old(floor)@.lanes.len(),
        again@.len() == old(floor)@.lanes.len(),
    ensures
        final(floor).wf(),
        final(floor)@.lanes.len() == old(floor)@.lanes.len(),
        steps(*old(floor), me, busy@, again@, *final(floor), step),
        kept(old(floor)@, final(floor)@),
{
    let ghost before = *floor;
    let f: Fetched = go(&mut floor.lanes, &mut floor.tie, me, busy, again);
    proof {
        let n = floor.teams@.len() as int;
        lemma_ran_in(before@.lanes, before.tie, me, busy@, again@, floor@.lanes, floor.tie, f, n);
        assert forall|id: usize| #[trigger] floor@.held(id) == before@.held(id) by {
            lemma_ran(
                before@.lanes,
                before.tie,
                me,
                busy@,
                again@,
                floor@.lanes,
                floor.tie,
                f,
                id,
            );
        }
    }
    match f {
        Fetched::Run(d) => Step::Run(d),
        Fetched::Halt => Step::Halt,
        Fetched::Wait => Step::Sleep { far: floor.blocked.len() == 0 },
    }
}

/// Where a hart with nothing to do starts.
pub fn idle(floor: &mut Floor, me: usize, busy: &Vec<bool>, again: &Vec<bool>) -> (step: Step)
    requires
        old(floor).wf(),
        me < old(floor)@.lanes.len(),
        busy@.len() == old(floor)@.lanes.len(),
        again@.len() == old(floor)@.lanes.len(),
    ensures
        final(floor).wf(),
        final(floor)@.lanes.len() == old(floor)@.lanes.len(),
        steps(*old(floor), me, busy@, again@, *final(floor), step),
        kept(old(floor)@, final(floor)@),
{
    run(floor, me, busy, again)
}

/// Takes the waiting mark off a hart that has woken up.
pub fn rouse(floor: &mut Floor, me: usize)
    requires
        old(floor).wf(),
        me < old(floor)@.lanes.len(),
    ensures
        final(floor).wf(),
        *final(floor) == (Floor { tie: final(floor).tie, ..*old(floor) }),
        tie::marked(old(floor).tie, final(floor).tie, me, false),
{
    tie::wake(&mut floor.tie, me);
}

/// Whether the sleeper `t` is due at `now`.
pub open spec fn is_due(t: Task, now: u64) -> bool {
    match t.state {
        TaskState::Blocked { reason: BlockReason::Park { wake_at } } => wake_at <= now,
        _ => false,
    }
}

/// The sleepers that are due at `now`, made ready.
pub open spec fn woken(s: Seq<Task>, now: u64) -> Seq<Task>
    decreases s.len(),
{
    if s.len() == 0 {
        Seq::empty()
    } else if is_due(s.last(), now) {
        woken(s.drop_last(), now).push(readied(s.last()))
    } else {
        woken(s.drop_last(), now)
    }
}

/// The sleepers that are not.
pub open spec fn sleeping(s: Seq<Task>, now: u64) -> Seq<Task>
    decreases s.len(),
{
    if s.len() == 0 {
        Seq::empty()
    } else if is_due(s.last(), now) {
        sleeping(s.drop_last(), now)
    } else {
        sleeping(s.drop_last(), now).push(s.last())
    }
}

/// Waking loses no task: each sleeper is either made ready or sleeps on.
pub proof fn law_woken_or_sleeping(s: Seq<Task>, now: u64, id: usize)
    ensures
        times(woken(s, now), id) + times(sleeping(s, now), id) == times(s, id),
        woken(s, now).len() + sleeping(s, now).len() == s.len(),
    decreases s.len(),
{
    if s.len() > 0 {
        law_woken_or_sleeping(s.drop_last(), now, id);
        lemma_times_push(woken(s.drop_last(), now), readied(s.last()), id);
        lemma_times_push(sleeping(s.drop_last(), now), s.last(), id);
    }
}

/// Nobody who is due sleeps on.
pub proof fn law_nobody_oversleeps(s: Seq<Task>, now: u64)
    ensures
        forall|i: int|
            0 <= i < sleeping(s, now).len() ==> !is_due(#[trigger] sleeping(s, now)[i], now),
    decreases s.len(),
{
    if s.len() > 0 {
        law_nobody_oversleeps(s.drop_last(), now);
        let rest = sleeping(s.drop_last(), now);
        assert forall|i: int| 0 <= i < sleeping(s, now).len() implies !is_due(
            #[trigger] sleeping(s, now)[i],
            now,
        ) by {
            if i < rest.len() {
                assert(sleeping(s, now)[i] == rest[i]);
            }
        }
    }
}

/// Wakes the sleepers that are due at `now`: they join the queue of hart `me` in the order
/// in which they went to sleep. For each of them the calls wake the sleeping harts.
pub fn unpark(floor: &mut Floor, me: usize, now: u64) -> (calls: Vec<Vec<Ipi>>)
    requires
        old(floor).wf(),
        me < old(floor)@.lanes.len(),
    ensures
        final(floor).wf(),
        final(floor)@ == (FloorView {
            lanes: old(floor)@.lanes.update(
                me as int,
                Lane {
                    starved: old(floor)@.lanes[me as int].starved + woken(
                        old(floor)@.blocked,
                        now,
                    ),
                    ..old(floor)@.lanes[me as int]
                },
            ),
            blocked: sleeping(old(floor)@.blocked, now),
            ..old(floor)@
        }),
        final(floor).teams == old(floor).teams,
        final(floor).tie == old(floor).tie,
        calls@.len() == woken(old(floor)@.blocked, now).len(),
        forall|i: int|
            0 <= i < calls@.len() ==> word_calls((#[trigger] calls@[i])@, old(floor).tie.waiting)
                && reaches_all(calls@[i]@, old(floor).tie.waiting),
        kept(old(floor)@, final(floor)@),
{
    let ghost before = *floor;
    let ghost all = floor.blocked@;
    let ghost lane0 = before@.lanes[me as int];
    let n: usize = floor.blocked.len();
    let mut calls: Vec<Vec<Ipi>> = Vec::new();
    let mut i: usize = 0;
    proof {
        assert(lane0 == floor.lanes@[me as int]@);
        assert(lane_in(lane0, floor.teams@.len() as int));
        assert(all.take(0) =~= Seq::<Task>::empty());
        assert(floor@.lanes =~= before@.lanes.update(
            me as int,
            Lane { starved: lane0.starved + woken(all.take(0), now), ..lane0 },
        ));
        assert(floor.blocked@ =~= all.skip(0) + sleeping(all.take(0), now));
    }
    while i < n
        invariant
            i <= n == all.len(),
            floor.wf(),
            before.wf(),
            me < before@.lanes.len(),
            all == before@.blocked,
            lane0 == before@.lanes[me as int],
            floor@.lanes == before@.lanes.update(
                me as int,
                Lane { starved: lane0.starved + woken(all.take(i as int), now), ..lane0 },
            ),
            floor@.reaped == before@.reaped,
            floor.blocked@ == all.skip(i as int) + sleeping(all.take(i as int), now),
            floor.teams == before.teams,
            floor.tie == before.tie,
            calls@.len() == woken(all.take(i as int), now).len(),
            forall|k: int|
                0 <= k < calls@.len() ==> word_calls((#[trigger] calls@[k])@, before.tie.waiting)
                    && reaches_all(calls@[k]@, before.tie.waiting),
        decreases n - i,
    {
        let ghost mid = *floor;
        let ghost lane1 = mid@.lanes[me as int];
        assert(mid@.lanes.len() == floor.lanes@.len());
        assert(lane1 == floor.lanes@[me as int]@);
        assert(lane_in(lane1, floor.teams@.len() as int));
        assert(all.take(i + 1).drop_last() =~= all.take(i as int));
        assert(all.take(i + 1).last() == all[i as int]);
        assert(mid.blocked@[0] == all[i as int]);
        let mut task: Task = floor.blocked.pop_front().unwrap();
        let due: bool = match task.unpark() {
            Some(at) => at <= now,
            None => false,
        };
        if due {
            task.transform(TaskState::Starved);
            let lane: &mut Scheduler = &mut floor.lanes[me];
            lane.push(task);
            calls.push(tie::wake_all(&floor.tie));
            assert(floor.lanes@[me as int]@.starved =~= lane0.starved + woken(
                all.take(i + 1),
                now,
            ));
            let ghost lane2 = Lane {
                starved: lane0.starved + woken(all.take(i + 1), now),
                ..lane0
            };
            assert(floor.lanes@[me as int]@ == lane2);
            assert(floor@.lanes =~= mid@.lanes.update(me as int, lane2));
            assert(floor@.lanes =~= before@.lanes.update(me as int, lane2));
            assert(lane_in(floor@.lanes[me as int], floor.teams@.len() as int));
            assert(floor.blocked@ =~= all.skip(i + 1) + sleeping(all.take(i + 1), now));
        } else {
            floor.blocked.push_back(task);
            assert(floor.blocked@ =~= all.skip(i + 1) + sleeping(all.take(i + 1), now));
            assert(floor@.lanes =~= mid@.lanes);
        }
        i += 1;
    }
    proof {
        assert(all.take(n as int) =~= all);
        assert(all.skip(n as int) + sleeping(all, now) =~= sleeping(all, now));
        assert forall|id: usize| #[trigger] floor@.held(id) == before@.held(id) by {
            law_woken_or_sleeping(all, now, id);
            lemma_times_add(lane0.starved, woken(all, now), id);
            lemma_lanes_update(before@.lanes, me as int, floor@.lanes[me as int], id);
        }
    }
    calls
}

/// Runs `f` on the number of the address space of the task that runs on hart `me`.
pub fn with_running_space<R, F: FnOnce(usize) -> R>(floor: &Floor, me: usize, f: F) -> (r: R)
    requires
        floor.wf(),
        me < floor@.lanes.len(),
        floor@.lanes[me as int].running is Some,
        f.requires((floor.teams@[floor@.lanes[me as int].running->0.team as int].space,)),
    ensures
        f.ensures((floor.teams@[floor@.lanes[me as int].running->0.team as int].space,), r),
{
    assert(floor@.lanes[me as int] == floor.lanes@[me as int]@);
    assert(lane_in(floor@.lanes[me as int], floor.teams@.len() as int));
    let team: usize = floor.lanes[me].running.as_ref().unwrap().team;
    f(floor.teams[team].space)
}

/// The number of the task that runs on hart `me`; [`NO_TASK_ID`] if there is none.
pub fn running_task_id(floor: &Floor, me: usize) -> (id: usize)
    requires
        me < floor@.lanes.len(),
    ensures
        id == (match floor@.lanes[me as int].running {
            Some(t) => t.id,
            None => NO_TASK_ID,
        }),
{
    assert(floor@.lanes[me as int] == floor.lanes@[me as int]@);
    match floor.lanes[me].running.as_ref() {
        Some(t) => t.id,
        None => NO_TASK_ID,
    }
}

/// Lets the next ready task of hart `me` run: see [`Scheduler::starve`].
pub fn starve(floor: &mut Floor, me: usize) -> (d: Dispatch)
    requires
        old(floor).wf(),
        me < old(floor)@.lanes.len(),
        old(floor)@.lanes[me as int].running is Some,
    ensures
        final(floor).wf(),
        ({
            let lane = old(floor)@.lanes[me as int];
            let after = if lane.starved.len() == 0 {
                lane
            } else {
                lane.rotated()
            };
            &&& final(floor)@ == (FloorView {
                lanes: old(floor)@.lanes.update(me as int, after),
                ..old(floor)@
            })
            &&& d == (Dispatch { pa: after.running->0.trap.pa, arm: lane.starved.len() > 0 })
        }),
        final(floor).teams == old(floor).teams,
        final(floor).tie == old(floor).tie,
        kept(old(floor)@, final(floor)@),
{
    let ghost before = *floor;
    let ghost lane0 = before@.lanes[me as int];
    assert(lane0 == floor.lanes@[me as int]@);
    assert(lane_in(lane0, floor.teams@.len() as int));
    let lane: &mut Scheduler = &mut floor.lanes[me];
    let d: Dispatch = lane.starve();
    proof {
        let lane1 = floor.lanes@[me as int]@;
        assert(floor@.lanes =~= before@.lanes.update(me as int, lane1));
        assert(lane_in(lane1, floor.teams@.len() as int));
        assert forall|id: usize| #[trigger] floor@.held(id) == before@.held(id) by {
            lemma_lanes_update(before@.lanes, me as int, lane1, id);
            if lane0.starved.len() > 0 {
                lemma_rotated(lane0, id);
            }
        }
    }
    d
}

/// The floor after the running task of hart `me` went to sleep until `wake_at`.
pub open spec fn dozed(v: FloorView, me: int, wake_at: u64) -> FloorView {
    let lane = v.lanes[me];
    FloorView {
        lanes: v.lanes.update(me, lane.vacated()),
        blocked: v.blocked.push(asleep(lane.running->0, wake_at)),
        ..v
    }
}

/// Puts the task that runs on hart `me` to sleep for `ticks` timer intervals from `now` on,
/// and goes on with another one.
pub fn park(
    floor: &mut Floor,
    me: usize,
    now: u64,
    ticks: u64,
    interval: u64,
    busy: &Vec<bool>,
    again: &Vec<bool>,
) -> (step: Step)
    requires
        old(floor).wf(),
        me < old(floor)@.lanes.len(),
        old(floor)@.lanes[me as int].running is Some,
        now + ticks * interval <= u64::MAX,
        busy@.len() == old(floor)@.lanes.len(),
        again@.len() == old(floor)@.lanes.len(),
    ensures
        final(floor).wf(),
        exists|mid: Floor|
            {
                &&& mid@ == dozed(old(floor)@, me as int, (now + ticks * interval) as u64)
                &&& mid.teams == old(floor).teams
                &&& mid.tie == old(floor).tie
                &&& #[trigger] steps(mid, me, busy@, again@, *final(floor), step)
            },
        kept(old(floor)@, final(floor)@),
{
    let ghost before = *floor;
    let ghost lane0 = before@.lanes[me as int];
    assert(lane0 == floor.lanes@[me as int]@);
    assert(lane_in(lane0, floor.teams@.len() as int));
    assert(ticks * interval <= u64::MAX);
    let wake_at: u64 = now + ticks * interval;
    let lane: &mut Scheduler = &mut floor.lanes[me];
    let task: Task = lane.block(wake_at);
    floor.blocked.push_back(task);
    let ghost mid = *floor;
    proof {
        assert(mid@.lanes =~= before@.lanes.update(me as int, lane0.vacated()));
        assert(lane_in(lane0.vacated(), floor.teams@.len() as int));
        assert(mid.wf());
        assert forall|id: usize| #[trigger] mid@.held(id) == before@.held(id) by {
            lemma_lanes_update(before@.lanes, me as int, lane0.vacated(), id);
            lemma_times_push(before@.blocked, asleep(lane0.running->0, wake_at), id);
        }
    }
    run(floor, me, busy, again)
}

/// Clears the ended tasks away: each leaves its team's list, and what is left of it is
/// handed back.
pub fn clear(floor: &mut Floor) -> (gone: Vec<Remains>)
    requires
        old(floor).wf(),
    ensures
        final(floor).wf(),
        final(floor)@ == (FloorView { reaped: Seq::empty(), ..old(floor)@ }),
        final(floor).tie == old(floor).tie,
        same_teams(old(floor).teams@, final(floor).teams@),
        rolls(final(floor).teams@) == cleared(
            rolls(old(floor).teams@),
            old(floor)@.reaped,
            census_of(old(floor)@.lanes) + ids_of(old(floor)@.blocked),
        ),
        gone@ == all_remains(old(floor)@.reaped, old(floor).teams@),
        forall|id: usize|
            final(floor)@.held(id) + times(old(floor)@.reaped, id) == #[trigger] old(
                floor,
            )@.held(id),
{
    let mut alive: Vec<usize> = census(&floor.lanes);
    list_ids(&floor.blocked, &mut alive);
    let gone: Vec<Remains> = clear_all(&mut floor.reaped, &mut floor.teams, &alive);
    assert(floor@ =~= (FloorView { reaped: Seq::empty(), ..old(floor)@ }));
    gone
}

/// The floor after the running task of hart `me` ended.
pub open spec fn mourned(v: FloorView, me: int) -> FloorView {
    let lane = v.lanes[me];
    FloorView {
        lanes: v.lanes.update(me, lane.vacated()),
        reaped: v.reaped.push(ended(lane.running->0)),
        ..v
    }
}

/// Whether `b` is `a` after the running task of hart `me` ended.
pub open spec fn left(a: Floor, b: Floor, me: int) -> bool {
    &&& b@ == mourned(a@, me)
    &&& b.teams == a.teams
    &&& b.tie == (Tie { reaped: a.tie.reaped.wrapping_add(1), ..a.tie })
}

/// Whether `b` is `a` after the ended tasks were cleared away, if the hart has a task again.
pub open spec fn sent_off(a: Floor, b: Floor, step: Step, gone: Seq<Remains>) -> bool {
    if step is Run {
        &&& b@ == (FloorView { reaped: Seq::empty(), ..a@ })
        &&& b.tie == a.tie
        &&& same_teams(a.teams@, b.teams@)
        &&& rolls(b.teams@) == cleared(
            rolls(a.teams@),
            a@.reaped,
            census_of(a@.lanes) + ids_of(a@.blocked),
        )
        &&& gone == all_remains(a@.reaped, a.teams@)
    } else {
        b == a && gone.len() == 0
    }
}

/// Ends the task that runs on hart `me` and goes on with another one. Where one comes on at
/// once the ended tasks are cleared away, and what is left of them comes back; where the hart
/// has to sleep first, [`clear`] follows once it runs a task again.
pub fn reap(floor: &mut Floor, me: usize, busy: &Vec<bool>, again: &Vec<bool>) -> (r: (
    Step,
    Vec<Remains>,
))
    requires
        old(floor).wf(),
        me < old(floor)@.lanes.len(),
        old(floor)@.lanes[me as int].running is Some,
        busy@.len() == old(floor)@.lanes.len(),
        again@.len() == old(floor)@.lanes.len(),
    ensures
        final(floor).wf(),
        exists|mid: Floor, fed: Floor|
            left(*old(floor), mid, me as int) && #[trigger] steps(
                mid,
                me,
                busy@,
                again@,
                fed,
                r.0,
            ) && #[trigger] sent_off(fed, *final(floor), r.0, r.1@),
{
    let ghost before = *floor;
    let ghost lane0 = before@.lanes[me as int];
    assert(lane0 == floor.lanes@[me as int]@);
    assert(lane_in(lane0, floor.teams@.len() as int));
    let lane: &mut Scheduler = &mut floor.lanes[me];
    lane.reap(&mut floor.reaped, &mut floor.tie);
    let ghost mid = *floor;
    proof {
        assert(mid@.lanes =~= before@.lanes.update(me as int, lane0.vacated()));
        assert(lane_in(lane0.vacated(), floor.teams@.len() as int));
        assert(mid.wf());
        assert(mid@ =~= mourned(before@, me as int));
    }
    let step: Step = run(floor, me, busy, again);
    let ghost fed = *floor;
    let fed_one: bool = match step {
        Step::Run(_) => true,
        _ => false,
    };
    let mut gone: Vec<Remains> = Vec::new();
    if fed_one {
        gone = clear(floor);
    }
    assert(left(before, mid, me as int));
    let r: (Step, Vec<Remains>) = (step, gone);
    assert(steps(mid, me, busy@, again@, fed, r.0));
    assert(sent_off(fed, *floor, r.0, r.1@));
    r
}

} // verus!
