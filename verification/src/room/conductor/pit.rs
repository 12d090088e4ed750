//! The pit: the harts' schedulers together with the sites at which tasks wait for events,
//! and each hart's note of who runs on it.
//!
//! A site has a line of waiters and a latch. An event that finds nobody in the line sets the
//! latch, and the next one who comes to wait goes on at once: no event is lost between
//! looking and waiting.
use std::collections::VecDeque;
use vstd::prelude::*;
use crate::bits::Ipi;
use crate::bits::{reaches_all, word_calls};
use crate::room::scheduler as hall;
use crate::room::scheduler::{Hall, HallView, Scene, Stride, Tock};
use crate::room::scheduler::{far, strides};
use crate::room::scheduler::fetch::WFI_FAR;
use crate::room::tie;
use crate::scheduler::{Dispatch, Scheduler};
use crate::scheduler::lanes::look;
use crate::scheduler::lanes::{lane_in, lemma_seen_in, moved, seen};
use crate::scheduler::readied;
use crate::table::Table;
use crate::task::{BlockReason, Task, TaskState, TrapFrame};

verus! {

/// The name of an event: an address in an address space.
#[derive(Clone, Copy, Debug, PartialEq, Eq, Structural)]
pub struct WaitKey(pub u64);

/// The number that stands for the address `va` in the address space `asid`: sixteen bits of
/// the one above forty-eight of the other.
pub open spec fn composed(asid: u64, va: u64) -> u64 {
    ((asid & 0xFFFF) << 48u64) | (va & 0xFFFF_FFFF_FFFF)
}

impl WaitKey {
    /// Computes [`composed`].
    pub fn compose(asid: usize, va: usize) -> (k: WaitKey)
        ensures
            k.0 == composed(asid as u64, va as u64),
    {
        WaitKey(((asid as u64 & 0xFFFF) << 48u64) | (va as u64 & 0xFFFF_FFFF_FFFF))
    }
}

/// Two events have one name only if they are one: the same address in the same address
/// space. Address spaces have sixteen bits, addresses forty-eight.
pub proof fn law_compose_injective(asid: u64, va: u64, other: u64, vb: u64)
    requires
        asid < 0x1_0000 && other < 0x1_0000,
        va < 0x1_0000_0000_0000 && vb < 0x1_0000_0000_0000,
        composed(asid, va) == composed(other, vb),
    ensures
        asid == other && va == vb,
{
    assert(asid == other && va == vb) by (bit_vector)
        requires
            asid < 0x1_0000 && other < 0x1_0000,
            va < 0x1_0000_0000_0000 && vb < 0x1_0000_0000_0000,
            ((asid & 0xFFFF) << 48u64) | (va & 0xFFFF_FFFF_FFFF) == ((other & 0xFFFF) << 48u64)
                | (vb & 0xFFFF_FFFF_FFFF),
    ;
}

/// One who waits, and the handle of the deadline, if there is one.
pub struct Waiter {
    pub task: Task,
    pub tock: Option<u64>,
}

/// What a site holds.
#[verifier::ext_equal]
pub struct SiteView {
    pub pend: bool,
    pub waiters: Seq<Waiter>,
}

/// A place at which tasks wait for an event.
pub struct WaitSite {
    /// An event came while nobody waited.
    pub pend: bool,
    /// The line, first come first served.
    pub waiters: VecDeque<Waiter>,
}

impl View for WaitSite {
    type V = SiteView;

    open spec fn view(&self) -> SiteView {
        SiteView { pend: self.pend, waiters: self.waiters@ }
    }
}

impl WaitSite {
    /// A site at which nothing has happened.
    pub fn new() -> (s: WaitSite)
        ensures
            s@ == fresh(),
    {
        WaitSite { pend: false, waiters: VecDeque::new() }
    }
}

/// A site at which nothing has happened.
pub open spec fn fresh() -> SiteView {
    SiteView { pend: false, waiters: Seq::empty() }
}

/// The site under `key`, fresh if there is none yet.
pub open spec fn site_at(sites: Map<u64, SiteView>, key: u64) -> SiteView {
    if sites.contains_key(key) {
        sites[key]
    } else {
        fresh()
    }
}

/// What is known of a team besides its tasks.
#[derive(Clone, Copy, Debug, PartialEq, Eq)]
pub struct Badge {
    pub name: &'static str,
    /// The number of its symbol table.
    pub elftable: Option<usize>,
    /// Whether it lives in the kernel's address space.
    pub kernel: bool,
}

/// Who runs on a hart.
#[derive(Clone, Copy, Debug, PartialEq, Eq)]
pub struct TaskIdent {
    pub id: usize,
    pub name: &'static str,
    pub team: usize,
    pub badge: Badge,
    pub trap: TrapFrame,
}

/// Who ran last on a hart. It names no team and no trap frame, so that neither is kept.
#[derive(Clone, Copy, Debug, PartialEq, Eq)]
pub struct LastIdent {
    pub id: usize,
    pub name: &'static str,
    pub badge: Badge,
}

/// A hart's note of who runs on it, or who did last.
#[derive(Clone, Copy, Debug, PartialEq, Eq)]
pub enum Current {
    Live(TaskIdent),
    Last(LastIdent),
}

impl Current {
    /// The task's number.
    pub fn id(&self) -> (id: usize)
        ensures
            id == (match *self {
                Current::Live(t) => t.id,
                Current::Last(l) => l.id,
            }),
    {
        match self {
            Current::Live(t) => t.id,
            Current::Last(l) => l.id,
        }
    }

    /// The task's name.
    pub fn name(&self) -> (name: &'static str)
        ensures
            name == (match *self {
                Current::Live(t) => t.name,
                Current::Last(l) => l.name,
            }),
    {
        match self {
            Current::Live(t) => t.name,
            Current::Last(l) => l.name,
        }
    }

    /// The team's name.
    pub fn team_name(&self) -> (name: &'static str)
        ensures
            name == (match *self {
                Current::Live(t) => t.badge.name,
                Current::Last(l) => l.badge.name,
            }),
    {
        match self {
            Current::Live(t) => t.badge.name,
            Current::Last(l) => l.badge.name,
        }
    }

    /// The team's symbol table.
    pub fn elftable(&self) -> (table: Option<usize>)
        ensures
            table == (match *self {
                Current::Live(t) => t.badge.elftable,
                Current::Last(l) => l.badge.elftable,
            }),
    {
        match self {
            Current::Live(t) => t.badge.elftable,
            Current::Last(l) => l.badge.elftable,
        }
    }

    /// The trap frame, which only a task that runs is sure to have.
    pub fn trap(&self) -> (trap: Option<TrapFrame>)
        ensures
            trap == (match *self {
                Current::Live(t) => Some(t.trap),
                Current::Last(_) => None,
            }),
    {
        match self {
            Current::Live(t) => Some(t.trap),
            Current::Last(_) => None,
        }
    }

    /// The task that runs.
    pub fn live(&self) -> (t: Option<&TaskIdent>)
        ensures
            t == (match *self {
                Current::Live(i) => Some(&i),
                Current::Last(_) => None,
            }),
    {
        match self {
            Current::Live(t) => Some(t),
            Current::Last(_) => None,
        }
    }
}

/// Who `t` is.
pub open spec fn ident_of(t: Task, badges: Seq<Badge>) -> TaskIdent {
    TaskIdent { id: t.id, name: t.name, team: t.team, badge: badges[t.team as int], trap: t.trap }
}

/// What stays of `t`.
pub open spec fn last_of(t: Task, badges: Seq<Badge>) -> LastIdent {
    LastIdent { id: t.id, name: t.name, badge: badges[t.team as int] }
}

/// What a pit holds.
#[verifier::ext_equal]
pub struct PitView {
    pub hall: HallView,
    pub sites: Map<u64, SiteView>,
    pub times: Map<u64, u64>,
    pub infos: Seq<Option<Current>>,
}

/// The harts, their sleepers, and the sites.
pub struct Pit {
    /// The harts and the sleepers.
    pub hall: Hall,
    /// The sites, by the event's name.
    pub sites: Table<u64, WaitSite>,
    /// The event that a waiter's deadline belongs to, by the deadline's handle.
    pub times: Table<u64, u64>,
    /// Each hart's note of who runs on it.
    pub infos: Vec<Option<Current>>,
    /// What is known of each team.
    pub badges: Vec<Badge>,
}

/// What the sites of a table hold.
pub open spec fn site_views(sites: Map<u64, WaitSite>) -> Map<u64, SiteView> {
    sites.map_values(|s: WaitSite| s@)
}

impl View for Pit {
    type V = PitView;

    open spec fn view(&self) -> PitView {
        PitView {
            hall: self.hall@,
            sites: site_views(self.sites@),
            times: self.times@,
            infos: self.infos@,
        }
    }
}

/// Whether each waiter at the site is blocked, has a team among `n`, and a deadline's handle
/// below `next`.
pub open spec fn site_ok(s: SiteView, n: int, next: u64) -> bool {
    forall|i: int|
        0 <= i < s.waiters.len() ==> {
            let w = #[trigger] s.waiters[i];
            &&& w.task.state is Blocked
            &&& w.task.team < n
            &&& w.tock matches Some(h) ==> h < next
        }
}

impl Pit {
    /// Whether the hall is in order, each waiter suits its place, and each hart and each team
    /// has its note.
    pub open spec fn wf(self) -> bool {
        &&& self.hall.wf()
        &&& forall|k: u64| #[trigger]
            self.sites@.contains_key(k) ==> site_ok(
                self.sites@[k]@,
                self.hall.teams@.len() as int,
                self.hall.next_handle,
            )
        &&& self.infos@.len() == self.hall@.lanes.len()
        &&& self.badges@.len() == self.hall.teams@.len()
    }

    /// Notes who runs on hart `me` after `stride`: a task that came on, or `left`, which
    /// nobody followed.
    pub fn settle(&mut self, me: usize, stride: &Stride, left: Option<LastIdent>)
        requires
            old(self).wf(),
            me < old(self)@.infos.len(),
        ensures
            final(self).wf(),
            *final(self) == (Pit { infos: final(self).infos, ..*old(self) }),
            final(self)@.infos == old(self)@.infos.update(
                me as int,
                noted(
                    old(self)@.infos[me as int],
                    *stride,
                    old(self)@.hall.lanes[me as int].running,
                    left,
                    old(self).badges@,
                ),
            ),
    {
        let ghost lane = self.hall@.lanes[me as int];
        assert(self.hall@.lanes.len() == self.hall.lanes@.len());
        assert(lane == self.hall.lanes@[me as int]@);
        assert(lane_in(lane, self.hall.teams@.len() as int));
        match stride {
            Stride::Run(d) => {
                if d.arm {
                    let note: Option<Current> = match self.hall.lanes[me].running.as_ref() {
                        Some(t) => Some(
                            Current::Live(
                                TaskIdent {
                                    id: t.id,
                                    name: t.name,
                                    team: t.team,
                                    badge: self.badges[t.team],
                                    trap: t.trap,
                                },
                            ),
                        ),
                        None => self.infos[me],
                    };
                    self.infos.set(me, note);
                } else {
                    assert(self.infos@ =~= self.infos@.update(me as int, self.infos@[me as int]));
                }
            },
            _ => {
                if let Some(l) = left {
                    self.infos.set(me, Some(Current::Last(l)));
                } else {
                    assert(self.infos@ =~= self.infos@.update(me as int, self.infos@[me as int]));
                }
            },
        }
    }

    /// The word for the thread pointer of the task that runs on hart `me`: a kernel task
    /// has the address of the hart's own data there, `own`; others keep what they have.
    pub fn thread_word(&self, me: usize, own: usize) -> (w: Option<usize>)
        requires
            self.wf(),
            me < self@.hall.lanes.len(),
            self@.hall.lanes[me as int].running is Some,
        ensures
            w == (if self.badges@[self@.hall.lanes[me as int].running->0.team as int].kernel {
                Some(own)
            } else {
                None
            }),
    {
        let ghost lane = self.hall@.lanes[me as int];
        assert(lane == self.hall.lanes@[me as int]@);
        assert(lane_in(lane, self.hall.teams@.len() as int));
        let team: usize = self.hall.lanes[me].running.as_ref().unwrap().team;
        if self.badges[team].kernel {
            Some(own)
        } else {
            None
        }
    }

    /// What stays of the task that runs on hart `me`.
    pub fn leaving(&self, me: usize) -> (l: LastIdent)
        requires
            self.wf(),
            me < self@.hall.lanes.len(),
            self@.hall.lanes[me as int].running is Some,
        ensures
            l == last_of(self@.hall.lanes[me as int].running->0, self.badges@),
    {
        let ghost lane = self.hall@.lanes[me as int];
        assert(lane == self.hall.lanes@[me as int]@);
        assert(lane_in(lane, self.hall.teams@.len() as int));
        let t: &Task = self.hall.lanes[me].running.as_ref().unwrap();
        LastIdent { id: t.id, name: t.name, badge: self.badges[t.team] }
    }
}

/// The note of a hart after `stride`, with `running` on it and after `left` went.
pub open spec fn noted(
    before: Option<Current>,
    stride: Stride,
    running: Option<Task>,
    left: Option<LastIdent>,
    badges: Seq<Badge>,
) -> Option<Current> {
    match stride {
        Stride::Run(d) => match running {
            Some(t) if d.arm => Some(Current::Live(ident_of(t, badges))),
            _ => before,
        },
        _ => match left {
            Some(l) => Some(Current::Last(l)),
            None => before,
        },
    }
}

/// Who runs on hart `me`, or who did last; nothing before the harts exist and before the
/// first task came on.
pub fn ident(pit: Option<&Pit>, me: usize) -> (c: Option<Current>)
    requires
        pit matches Some(p) ==> me < p@.infos.len(),
    ensures
        c == (match pit {
            Some(p) => p@.infos[me as int],
            None => None,
        }),
{
    match pit {
        None => None,
        Some(p) => p.infos[me],
    }
}

/// The place in the line of the one whose deadline has the handle `k`, from `from` on.
pub open spec fn seat_of(s: Seq<Waiter>, k: u64, from: int) -> Option<int>
    decreases s.len() - from,
{
    if from >= s.len() {
        None
    } else if s[from].tock == Some(k) {
        Some(from)
    } else {
        seat_of(s, k, from + 1)
    }
}

fn find_seat(s: &VecDeque<Waiter>, k: u64) -> (i: Option<usize>)
    ensures
        seat_of(s@, k, 0) is None <==> i is None,
        i matches Some(at) ==> seat_of(s@, k, 0) == Some(at as int) && at < s@.len(),
{
    let mut i: usize = 0;
    while i < s.len()
        invariant
            i <= s@.len(),
            seat_of(s@, k, 0) == seat_of(s@, k, i as int),
        decreases s@.len() - i,
    {
        let hit: bool = match s[i].tock {
            Some(h) => h == k,
            None => false,
        };
        if hit {
            return Some(i);
        }
        i += 1;
    }
    None
}

/// The pit after `t` joined the queue of hart `me`.
pub open spec fn queued(v: PitView, me: int, t: Task) -> PitView {
    PitView {
        hall: HallView {
            lanes: v.hall.lanes.update(me, v.hall.lanes[me].pushed(readied(t))),
            ..v.hall
        },
        ..v
    }
}

/// Whether the deadline with the handle `k` wakes anybody.
pub open spec fn rouses(v: PitView, k: u64) -> bool {
    if v.times.contains_key(k) {
        v.sites.contains_key(v.times[k]) && seat_of(v.sites[v.times[k]].waiters, k, 0) is Some
    } else {
        v.hall.blocked.contains_key(k)
    }
}

/// The pit after the deadline with the handle `k` has passed: a waiter leaves its line, a
/// sleeper its bed.
pub open spec fn roused_one(v: PitView, me: int, k: u64) -> PitView {
    if v.times.contains_key(k) {
        let key = v.times[k];
        let w = PitView { times: v.times.remove(k), ..v };
        if rouses(v, k) {
            let line = v.sites[key].waiters;
            let i = seat_of(line, k, 0)->0;
            queued(
                PitView {
                    sites: v.sites.insert(
                        key,
                        SiteView { waiters: line.remove(i), ..v.sites[key] },
                    ),
                    ..w
                },
                me,
                line[i].task,
            )
        } else {
            w
        }
    } else if v.hall.blocked.contains_key(k) {
        queued(
            PitView {
                hall: HallView { blocked: v.hall.blocked.remove(k), ..v.hall },
                ..v
            },
            me,
            v.hall.blocked[k],
        )
    } else {
        v
    }
}

/// The pit after the deadlines `due` have passed, one after the other.
pub open spec fn roused(v: PitView, me: int, due: Seq<u64>) -> PitView
    decreases due.len(),
{
    if due.len() == 0 {
        v
    } else {
        roused_one(roused(v, me, due.drop_last()), me, due.last())
    }
}

/// How many wake up.
pub open spec fn roused_count(v: PitView, me: int, due: Seq<u64>) -> nat
    decreases due.len(),
{
    if due.len() == 0 {
        0
    } else {
        roused_count(v, me, due.drop_last()) + (if rouses(
            roused(v, me, due.drop_last()),
            due.last(),
        ) {
            1nat
        } else {
            0
        })
    }
}

impl Pit {
    /// Makes `task` ready at hart `me`.
    fn queue(&mut self, me: usize, task: Task)
        requires
            old(self).wf(),
            me < old(self)@.hall.lanes.len(),
            task.state is Blocked,
            task.team < old(self).hall.teams@.len(),
        ensures
            final(self).wf(),
            final(self)@ == queued(old(self)@, me as int, task),
            final(self).hall.teams == old(self).hall.teams,
            final(self).hall.tie == old(self).hall.tie,
            final(self).badges == old(self).badges,
    {
        let ghost lane0 = self.hall@.lanes[me as int];
        assert(lane0 == self.hall.lanes@[me as int]@);
        assert(lane_in(lane0, self.hall.teams@.len() as int));
        let mut task: Task = task;
        task.transform(TaskState::Starved);
        let lane: &mut Scheduler = &mut self.hall.lanes[me];
        lane.push(task);
        proof {
            assert(self.hall@.lanes =~= old(self).hall@.lanes.update(me as int, lane0.pushed(task)));
            assert(lane_in(lane0.pushed(task), self.hall.teams@.len() as int));
        }
    }
}

impl Pit {
    /// Takes the waiter whose deadline has the handle `k` out of the line under `key`.
    fn unseat(&mut self, key: u64, k: u64) -> (t: Option<Task>)
        requires
            old(self).wf(),
        ensures
            final(self).wf(),
            final(self).hall == old(self).hall,
            final(self).badges == old(self).badges,
            ({
                let v = old(self)@;
                let seat = seat_of(v.sites[key].waiters, k, 0);
                if v.sites.contains_key(key) && seat is Some {
                    let line = v.sites[key].waiters;
                    &&& t == Some(line[seat->0].task)
                    &&& final(self)@ == (PitView {
                        sites: v.sites.insert(
                            key,
                            SiteView { waiters: line.remove(seat->0), ..v.sites[key] },
                        ),
                        ..v
                    })
                    &&& t->0.state is Blocked
                    &&& t->0.team < old(self).hall.teams@.len()
                } else {
                    t is None && final(self)@ == v
                }
            }),
    {
        let ghost before = *self;
        match self.sites.get_mut(key) {
            None => {
                assert(site_views(self.sites@) =~= site_views(before.sites@));
                None
            },
            Some(site) => {
                let ghost line = before.sites@[key].waiters@;
                assert(before@.sites[key] == before.sites@[key]@);
                match find_seat(&site.waiters, k) {
                    None => {
                        assert(self.sites@ =~= before.sites@);
                        None
                    },
                    Some(i) => {
                        let w: Waiter = site.waiters.remove(i).unwrap();
                        assert(site_ok(
                            before.sites@[key]@,
                            before.hall.teams@.len() as int,
                            before.hall.next_handle,
                        ));
                        assert(w == line[i as int]);
                        assert(self.sites@[key]@ == (SiteView {
                            waiters: line.remove(i as int),
                            ..before@.sites[key]
                        }));
                        assert(self@.sites =~= before@.sites.insert(key, self.sites@[key]@));
                        Some(w.task)
                    },
                }
            },
        }
    }

    /// Deals with one deadline that has passed: see [`roused_one`].
    fn rouse_one(&mut self, me: usize, k: u64) -> (woke: bool)
        requires
            old(self).wf(),
            me < old(self)@.hall.lanes.len(),
        ensures
            final(self).wf(),
            final(self)@ == roused_one(old(self)@, me as int, k),
            woke == rouses(old(self)@, k),
            final(self).hall.teams == old(self).hall.teams,
            final(self).hall.tie == old(self).hall.tie,
            final(self).badges == old(self).badges,
            final(self)@.hall.lanes.len() == old(self)@.hall.lanes.len(),
    {
        let ghost before = *self;
        match self.times.remove(k) {
            Some(key) => {
                let ghost mid = *self;
                assert(mid@ =~= (PitView { times: before@.times.remove(k), ..before@ }));
                match self.unseat(key, k) {
                    Some(task) => {
                        self.queue(me, task);
                        true
                    },
                    None => false,
                }
            },
            None => {
                assert(self.times@ =~= before.times@);
                match self.hall.blocked.remove(k) {
                    Some(task) => {
                        assert(self.wf());
                        self.queue(me, task);
                        true
                    },
                    None => {
                        assert(self.hall.blocked@ =~= before.hall.blocked@);
                        false
                    },
                }
            },
        }
    }
}

/// Wakes everybody whose deadline is among `due`, waiters and sleepers alike: they join the
/// queue of hart `me`. `r.0` says whether there was anybody. For each of them the calls wake
/// the sleeping harts.
pub fn unpark(pit: &mut Pit, me: usize, due: &Vec<u64>) -> (r: (bool, Vec<Vec<Ipi>>))
    requires
        old(pit).wf(),
        me < old(pit)@.hall.lanes.len(),
    ensures
        final(pit).wf(),
        final(pit)@ == roused(old(pit)@, me as int, due@),
        final(pit)@.hall.lanes.len() == old(pit)@.hall.lanes.len(),
        final(pit).hall.teams == old(pit).hall.teams,
        final(pit).hall.tie == old(pit).hall.tie,
        final(pit).badges == old(pit).badges,
        r.0 <==> roused_count(old(pit)@, me as int, due@) > 0,
        r.1@.len() == roused_count(old(pit)@, me as int, due@),
        forall|i: int|
            0 <= i < r.1@.len() ==> word_calls((#[trigger] r.1@[i])@, old(pit).hall.tie.waiting)
                && reaches_all(r.1@[i]@, old(pit).hall.tie.waiting),
{
    let ghost before = *pit;
    let mut calls: Vec<Vec<Ipi>> = Vec::new();
    let mut i: usize = 0;
    assert(due@.take(0) =~= Seq::<u64>::empty());
    while i < due.len()
        invariant
            i <= due@.len(),
            pit.wf(),
            me < before@.hall.lanes.len(),
            pit@.hall.lanes.len() == before@.hall.lanes.len(),
            pit@ == roused(before@, me as int, due@.take(i as int)),
            pit.hall.teams == before.hall.teams,
            pit.hall.tie == before.hall.tie,
            pit.badges == before.badges,
            calls@.len() == roused_count(before@, me as int, due@.take(i as int)),
            forall|k: int|
                0 <= k < calls@.len() ==> word_calls(
                    (#[trigger] calls@[k])@,
                    before.hall.tie.waiting,
                ) && reaches_all(calls@[k]@, before.hall.tie.waiting),
        decreases due@.len() - i,
    {
        assert(due@.take(i + 1).drop_last() =~= due@.take(i as int));
        assert(due@.take(i + 1).last() == due@[i as int]);
        if pit.rouse_one(me, due[i]) {
            calls.push(tie::yell(&pit.hall.tie));
        }
        i += 1;
    }
    assert(due@.take(i as int) =~= due@);
    (calls.len() > 0, calls)
}

/// The pit after an event `key`: the first in the line is made ready, and its deadline is
/// dropped; with nobody there the latch is set.
pub open spec fn signalled(v: PitView, me: int, key: u64) -> PitView {
    let site = site_at(v.sites, key);
    if site.waiters.len() > 0 {
        let w = site.waiters[0];
        let line = site.waiters.subrange(1, site.waiters.len() as int);
        queued(
            PitView {
                sites: v.sites.insert(key, SiteView { waiters: line, ..site }),
                times: match w.tock {
                    Some(h) => v.times.remove(h),
                    None => v.times,
                },
                ..v
            },
            me,
            w.task,
        )
    } else {
        PitView { sites: v.sites.insert(key, SiteView { pend: true, ..site }), ..v }
    }
}

impl Pit {
    /// Makes sure that there is a site under `key`.
    fn open_site(&mut self, key: u64)
        requires
            old(self).wf(),
        ensures
            final(self).wf(),
            final(self).hall == old(self).hall,
            final(self).badges == old(self).badges,
            final(self).sites@.contains_key(key),
            final(self)@ == (PitView {
                sites: old(self)@.sites.insert(key, site_at(old(self)@.sites, key)),
                ..old(self)@
            }),
    {
        let ghost before = *self;
        if !self.sites.contains(key) {
            self.sites.insert(key, WaitSite::new());
        }
        assert(self@.sites =~= before@.sites.insert(key, site_at(before@.sites, key)));
    }
}

/// An event: the first who waits for it is made ready at hart `me`, and the calls wake the
/// sleeping harts. With nobody there the event stays for the next one.
pub fn wake(pit: &mut Pit, me: usize, key: WaitKey) -> (calls: Option<Vec<Ipi>>)
    requires
        old(pit).wf(),
        me < old(pit)@.hall.lanes.len(),
    ensures
        final(pit).wf(),
        final(pit)@ == signalled(old(pit)@, me as int, key.0),
        final(pit).hall.teams == old(pit).hall.teams,
        final(pit).hall.tie == old(pit).hall.tie,
        final(pit).badges == old(pit).badges,
        calls is Some <==> site_at(old(pit)@.sites, key.0).waiters.len() > 0,
        calls matches Some(c) ==> word_calls(c@, old(pit).hall.tie.waiting) && reaches_all(
            c@,
            old(pit).hall.tie.waiting,
        ),
{
    let ghost before = *pit;
    let ghost site0 = site_at(before@.sites, key.0);
    pit.open_site(key.0);
    let ghost mid = *pit;
    assert(mid@.sites[key.0] == site0);
    assert(mid.sites@[key.0]@ == site0);
    assert(site_ok(site0, mid.hall.teams@.len() as int, mid.hall.next_handle));
    let site: &mut WaitSite = pit.sites.get_mut(key.0).unwrap();
    match site.waiters.pop_front() {
        None => {
            site.pend = true;
            assert(pit@.sites =~= mid@.sites.insert(key.0, pit.sites@[key.0]@));
            assert(pit@.sites =~= before@.sites.insert(key.0, SiteView { pend: true, ..site0 }));
            None
        },
        Some(w) => {
            let ghost line = site0.waiters.subrange(1, site0.waiters.len() as int);
            assert(pit@.sites =~= mid@.sites.insert(key.0, pit.sites@[key.0]@));
            assert(pit@.sites =~= before@.sites.insert(key.0, SiteView { waiters: line, ..site0 }));
            assert(site_ok(pit.sites@[key.0]@, mid.hall.teams@.len() as int, mid.hall.next_handle));
            if let Some(h) = w.tock {
                pit.times.remove(h);
            }
            pit.queue(me, w.task);
            assert(pit@ =~= signalled(before@, me as int, key.0));
            Some(tie::yell(&pit.hall.tie))
        },
    }
}

/// Whether hart `me` goes on from `a` with `stride` and leaves `b`, where `left` is who has
/// just gone from it.
pub open spec fn goes_on(
    a: Pit,
    me: usize,
    scene: Scene,
    left: Option<LastIdent>,
    b: Pit,
    stride: Stride,
) -> bool {
    &&& strides(
        a.hall,
        me,
        scene.busy@,
        scene.again@,
        far(scene.next_tock, scene.now),
        b.hall,
        stride,
    )
    &&& b@.sites == a@.sites
    &&& b@.times == a@.times
    &&& b.badges == a.badges
    &&& b@.infos == a@.infos.update(
        me as int,
        noted(
            a@.infos[me as int],
            stride,
            b@.hall.lanes[me as int].running,
            left,
            a.badges@,
        ),
    )
}

impl Pit {
    /// Lets hart `me` go on: see [`hall::run`], and note who came on.
    pub fn go_on(&mut self, me: usize, scene: &Scene, left: Option<LastIdent>) -> (stride: Stride)
        requires
            old(self).wf(),
            me < old(self)@.hall.lanes.len(),
            scene.busy@.len() == old(self)@.hall.lanes.len(),
            scene.again@.len() == old(self)@.hall.lanes.len(),
        ensures
            final(self).wf(),
            final(self)@.hall.lanes.len() == old(self)@.hall.lanes.len(),
            goes_on(*old(self), me, *scene, left, *final(self), stride),
    {
        let stride: Stride = hall::run(&mut self.hall, me, scene);
        self.settle(me, &stride, left);
        stride
    }
}

/// The task that hart `me` lets wait until `until`, as it stands in the line.
pub open spec fn waiter_of(t: Task, until: Option<u64>, handle: u64) -> Waiter {
    Waiter {
        task: Task { state: TaskState::Blocked { reason: BlockReason::Wait { until } }, ..t },
        tock: match until {
            Some(_) => Some(handle),
            None => None,
        },
    }
}

/// The pit after the running task of hart `me` joined the line under `key`, with a deadline
/// or without.
pub open spec fn lined_up(v: PitView, me: int, key: u64, until: Option<u64>) -> PitView {
    let lane = v.hall.lanes[me];
    let site = site_at(v.sites, key);
    let w = waiter_of(lane.running->0, until, v.hall.next_handle);
    PitView {
        hall: HallView {
            lanes: v.hall.lanes.update(me, lane.vacated()),
            next_handle: match until {
                Some(_) => (v.hall.next_handle + 1) as u64,
                None => v.hall.next_handle,
            },
            ..v.hall
        },
        sites: v.sites.insert(key, SiteView { waiters: site.waiters.push(w), ..site }),
        times: match until {
            Some(_) => v.times.insert(v.hall.next_handle, key),
            None => v.times,
        },
        ..v
    }
}

/// Whether `b` is `a` after [`lined_up`].
pub open spec fn stands_in_line(a: Pit, b: Pit, me: int, key: u64, until: Option<u64>) -> bool {
    &&& b@ == lined_up(a@, me, key, until)
    &&& b.hall.teams == a.hall.teams
    &&& b.hall.tie == a.hall.tie
    &&& b.badges == a.badges
}

/// The time at which a wait of `dur` ticks from `now` on ends.
pub open spec fn end_of(now: u64, dur: Option<u64>) -> Option<u64> {
    match dur {
        Some(d) => Some((now + d) as u64),
        None => None,
    }
}

/// Whether the wait of hart `me`'s task for `key` leads from `a` to `b` and `stride`, with the
/// deadline `tock`.
pub open spec fn waited(
    a: Pit,
    me: usize,
    key: u64,
    dur: Option<u64>,
    scene: Scene,
    b: Pit,
    tock: Option<Tock>,
    stride: Stride,
) -> bool {
    let v = a@;
    let site = site_at(v.sites, key);
    let t = v.hall.lanes[me as int].running->0;
    let until = end_of(scene.now, dur);
    if site.pend {
        &&& tock is None
        &&& stride == Stride::Run(Dispatch { pa: t.trap.pa, arm: false })
        &&& b@ == (PitView { sites: v.sites.insert(key, SiteView { pend: false, ..site }), ..v })
        &&& b.hall == a.hall
        &&& b.badges == a.badges
    } else {
        &&& tock == (match until {
            Some(at) => Some(Tock { handle: v.hall.next_handle, at }),
            None => None,
        })
        &&& exists|mid: Pit| #[trigger]
            stands_in_line(a, mid, me as int, key, until) && goes_on(
                mid,
                me,
                scene,
                Some(last_of(t, a.badges@)),
                b,
                stride,
            )
    }
}

/// Lets the task that runs on hart `me` wait for the event `key`, for `dur` ticks or for ever.
/// Where the event came before, the task goes on at once and the event is spent. The deadline,
/// if there is one, is for the clock.
pub fn wait(pit: &mut Pit, me: usize, key: WaitKey, dur: Option<u64>, scene: &Scene) -> (r: (
    Option<Tock>,
    Stride,
))
    requires
        old(pit).wf(),
        me < old(pit)@.hall.lanes.len(),
        old(pit)@.hall.lanes[me as int].running is Some,
        dur matches Some(d) ==> scene.now + d <= u64::MAX && old(pit)@.hall.next_handle < u64::MAX,
        scene.busy@.len() == old(pit)@.hall.lanes.len(),
        scene.again@.len() == old(pit)@.hall.lanes.len(),
    ensures
        final(pit).wf(),
        waited(*old(pit), me, key.0, dur, *scene, *final(pit), r.0, r.1),
{
    let ghost before = *pit;
    let ghost site0 = site_at(before@.sites, key.0);
    let ghost lane0 = before@.hall.lanes[me as int];
    let left: LastIdent = pit.leaving(me);
    assert(lane0 == pit.hall.lanes@[me as int]@);
    assert(lane_in(lane0, pit.hall.teams@.len() as int));
    pit.open_site(key.0);
    let ghost mid0 = *pit;
    assert(mid0@.sites[key.0] == site0);
    assert(mid0.sites@[key.0]@ == site0);
    assert(site_ok(site0, mid0.hall.teams@.len() as int, mid0.hall.next_handle));
    let pend: bool = pit.sites.get(key.0).unwrap().pend;
    if pend {
        let site: &mut WaitSite = pit.sites.get_mut(key.0).unwrap();
        site.pend = false;
        assert(pit@.sites =~= mid0@.sites.insert(key.0, pit.sites@[key.0]@));
        assert(pit@.sites =~= before@.sites.insert(key.0, SiteView { pend: false, ..site0 }));
        let pa: usize = pit.hall.lanes[me].running.as_ref().unwrap().trap.pa;
        return (None, Stride::Run(Dispatch { pa, arm: false }));
    }
    let handle: u64 = pit.hall.next_handle;
    let until: Option<u64> = match dur {
        Some(d) => Some(scene.now + d),
        None => None,
    };
    let lane: &mut Scheduler = &mut pit.hall.lanes[me];
    let task: Task = lane.suspend(BlockReason::Wait { until });
    let mut tock: Option<Tock> = None;
    let mut held: Option<u64> = None;
    if let Some(at) = until {
        pit.hall.next_handle = handle + 1;
        pit.times.insert(handle, key.0);
        tock = Some(Tock { handle, at });
        held = Some(handle);
    }
    let ghost w = Waiter { task, tock: held };
    let site: &mut WaitSite = pit.sites.get_mut(key.0).unwrap();
    site.waiters.push_back(Waiter { task, tock: held });
    let ghost mid = *pit;
    proof {
        assert(w == waiter_of(lane0.running->0, until, handle));
        assert(mid.hall@.lanes =~= before.hall@.lanes.update(me as int, lane0.vacated()));
        assert(lane_in(lane0.vacated(), mid.hall.teams@.len() as int));
        assert(mid.hall.wf());
        assert(mid.sites@[key.0]@ =~= (SiteView { waiters: site0.waiters.push(w), ..site0 }));
        assert(mid@.sites =~= mid0@.sites.insert(key.0, mid.sites@[key.0]@));
        assert(mid@.sites =~= before@.sites.insert(key.0, mid.sites@[key.0]@));
        assert forall|k: u64| #[trigger] mid.sites@.contains_key(k) implies site_ok(
            mid.sites@[k]@,
            mid.hall.teams@.len() as int,
            mid.hall.next_handle,
        ) by {
            assert(mid0.sites@.contains_key(k));
            assert(site_ok(
                mid0.sites@[k]@,
                mid0.hall.teams@.len() as int,
                mid0.hall.next_handle,
            ));
        }
        assert(mid@ =~= lined_up(before@, me as int, key.0, until));
        assert(stands_in_line(before, mid, me as int, key.0, until));
    }
    let stride: Stride = pit.go_on(me, scene, Some(left));
    let r: (Option<Tock>, Stride) = (tock, stride);
    assert(goes_on(mid, me, *scene, Some(left), *pit, r.1));
    r
}

/// An event that comes while nobody waits is not lost and not doubled: the next wait for it
/// finds the latch set, and the one after that does not.
pub proof fn law_event_is_kept(v: PitView, me: int, key: u64)
    requires
        site_at(v.sites, key).waiters.len() == 0,
    ensures
        site_at(signalled(v, me, key).sites, key).pend,
        signalled(signalled(v, me, key), me, key) == signalled(v, me, key),
        ({
            let once = signalled(v, me, key);
            let spent = PitView {
                sites: once.sites.insert(
                    key,
                    SiteView { pend: false, ..site_at(once.sites, key) },
                ),
                ..once
            };
            !site_at(spent.sites, key).pend
        }),
{
    let once = signalled(v, me, key);
    assert(signalled(once, me, key) =~= once);
}

/// Two events leave one latch: of two who come to wait after them one goes on at once, as it was
/// and in no line, and the other stands in line.
pub proof fn law_two_events_let_one_on(
    v: PitView,
    a: Pit,
    b: Pit,
    c: Pit,
    me: usize,
    key: u64,
    first: (Option<u64>, Scene, Option<Tock>, Stride),
    second: (Option<u64>, Scene, Option<Tock>, Stride),
)
    requires
        site_at(v.sites, key).waiters.len() == 0,
        a@ == signalled(signalled(v, me as int, key), me as int, key),
        waited(a, me, key, first.0, first.1, b, first.2, first.3),
        waited(b, me, key, second.0, second.1, c, second.2, second.3),
    ensures
        first.2 is None,
        first.3 == Stride::Run(
            Dispatch { pa: v.hall.lanes[me as int].running->0.trap.pa, arm: false },
        ),
        b.hall == a.hall,
        b@.hall == v.hall,
        site_at(b@.sites, key).waiters.len() == 0,
        exists|mid: Pit| #[trigger]
            stands_in_line(b, mid, me as int, key, end_of(second.1.now, second.0)) && goes_on(
                mid,
                me,
                second.1,
                Some(last_of(b@.hall.lanes[me as int].running->0, b.badges@)),
                c,
                second.3,
            ),
{
    law_event_is_kept(v, me as int, key);
    let once = signalled(v, me as int, key);
    assert(a@ == once);
    assert(site_at(once.sites, key).pend);
    assert(!site_at(b@.sites, key).pend);
}

/// Events serve a line in its order: the one that joined first is made ready first, and the
/// others move up.
pub proof fn law_first_come_first_served(v: PitView, me: int, key: u64)
    requires
        site_at(v.sites, key).waiters.len() > 0,
        0 <= me < v.hall.lanes.len(),
    ensures
        signalled(v, me, key).hall.lanes[me].starved.last() == readied(
            site_at(v.sites, key).waiters[0].task,
        ),
        site_at(signalled(v, me, key).sites, key).waiters == site_at(
            v.sites,
            key,
        ).waiters.subrange(1, site_at(v.sites, key).waiters.len() as int),
        signalled(v, me, key).hall.lanes[me].starved.len() == v.hall.lanes[me].starved.len() + 1,
{
}

/// Whether hart `me`, after a sleep that woke nobody, goes on from `a` with `stride` and
/// leaves `b`: it runs what a look finds, halts where every task is over, and sleeps on
/// otherwise, still marked as waiting.
pub open spec fn looks_round(a: Pit, me: usize, scene: Scene, b: Pit, stride: Stride) -> bool {
    let lanes = a@.hall.lanes;
    &&& match seen(lanes, scene.busy@, me as int) {
        Some(v) => {
            &&& b@.hall == (HallView { lanes: moved(lanes, me as int, v), ..a@.hall })
            &&& stride == Stride::Run(Dispatch { pa: lanes[v].starved[0].trap.pa, arm: true })
            &&& tie::marked(a.hall.tie, b.hall.tie, me, false)
        },
        None => {
            &&& b@.hall == a@.hall
            &&& if tie::is_done(a.hall.tie) {
                stride == Stride::Halt && tie::marked(a.hall.tie, b.hall.tie, me, false)
            } else {
                stride == (Stride::Sleep { delta: far(scene.next_tock, scene.now) })
                    && b.hall.tie == a.hall.tie
            }
        },
    }
    &&& b.hall.teams == a.hall.teams
    &&& b@.sites == a@.sites
    &&& b@.times == a@.times
    &&& b.badges == a.badges
    &&& b@.infos == a@.infos.update(
        me as int,
        noted(a@.infos[me as int], stride, b@.hall.lanes[me as int].running, None, a.badges@),
    )
}

/// Whether `b` is `a` but for the waiting mark of hart `me`, which is gone.
pub open spec fn unmarked(a: Pit, b: Pit, me: usize) -> bool {
    &&& b@ == a@
    &&& b.hall.teams == a.hall.teams
    &&& b.badges == a.badges
    &&& tie::marked(a.hall.tie, b.hall.tie, me, false)
}

/// Hart `me` wakes from its sleep; the deadlines `due` have passed. Where that woke anybody
/// the hart does not wait any more and goes on; otherwise it looks round once and may sleep
/// on.
pub fn resume(pit: &mut Pit, me: usize, due: &Vec<u64>, scene: &Scene) -> (r: (
    Vec<Vec<Ipi>>,
    Stride,
))
    requires
        old(pit).wf(),
        me < old(pit)@.hall.lanes.len(),
        old(pit)@.hall.lanes[me as int].running is None,
        scene.busy@.len() == old(pit)@.hall.lanes.len(),
        scene.again@.len() == old(pit)@.hall.lanes.len(),
    ensures
        final(pit).wf(),
        exists|fed: Pit|
            {
                &&& fed@ == roused(old(pit)@, me as int, due@)
                &&& fed.hall.teams == old(pit).hall.teams
                &&& fed.hall.tie == old(pit).hall.tie
                &&& fed.badges == old(pit).badges
                &&& #[trigger] woken_up(
                    fed,
                    me,
                    *scene,
                    roused_count(old(pit)@, me as int, due@),
                    *final(pit),
                    r.1,
                )
            },
        r.0@.len() == roused_count(old(pit)@, me as int, due@),
        forall|i: int|
            0 <= i < r.0@.len() ==> word_calls((#[trigger] r.0@[i])@, old(pit).hall.tie.waiting)
                && reaches_all(r.0@[i]@, old(pit).hall.tie.waiting),
{
    let ghost before = *pit;
    let (woke, calls) = unpark(pit, me, due);
    let ghost fed = *pit;
    let ghost calls_made = calls@.len();
    proof {
        lemma_roused_idle(before@, me as int, due@);
    }
    assert(pit@.hall.lanes.len() == pit.hall.lanes@.len());
    assert(pit.hall@.lanes[me as int] == pit.hall.lanes@[me as int]@);
    if woke {
        tie::wake(&mut pit.hall.tie, me);
        let ghost mid = *pit;
        assert(mid@ =~= fed@);
        assert(unmarked(fed, mid, me));
        let stride: Stride = pit.go_on(me, scene, None);
        assert(goes_on(mid, me, *scene, None, *pit, stride));
        let r: (Vec<Vec<Ipi>>, Stride) = (calls, stride);
        assert(woken_up(fed, me, *scene, calls_made, *pit, r.1));
        return r;
    }
    let found: Option<Dispatch> = look(&mut pit.hall.lanes, me, &scene.busy);
    proof {
        if seen(fed@.hall.lanes, scene.busy@, me as int) is Some {
            lemma_seen_in(fed@.hall.lanes, scene.busy@, me as int, fed.hall.teams@.len() as int);
        }
    }
    let stride: Stride = match found {
        Some(d) => {
            tie::wake(&mut pit.hall.tie, me);
            Stride::Run(d)
        },
        None => if tie::done(&pit.hall.tie) {
            tie::wake(&mut pit.hall.tie, me);
            Stride::Halt
        } else {
            let delta: u64 = match scene.next_tock {
                Some(at) => at.saturating_sub(scene.now),
                None => WFI_FAR,
            };
            Stride::Sleep { delta }
        },
    };
    assert(pit.wf());
    pit.settle(me, &stride, None);
    let r: (Vec<Vec<Ipi>>, Stride) = (calls, stride);
    assert(looks_round(fed, me, *scene, *pit, r.1));
    assert(woken_up(fed, me, *scene, 0, *pit, r.1));
    r
}

/// Whether hart `me` goes on from `a`, where the deadlines woke so many.
pub open spec fn woken_up(
    a: Pit,
    me: usize,
    scene: Scene,
    woke: nat,
    b: Pit,
    stride: Stride,
) -> bool {
    if woke > 0 {
        exists|mid: Pit| #[trigger]
            unmarked(a, mid, me) && goes_on(mid, me, scene, None, b, stride)
    } else {
        looks_round(a, me, scene, b, stride)
    }
}

/// A deadline puts nobody on a hart.
proof fn lemma_roused_idle(v: PitView, me: int, due: Seq<u64>)
    requires
        0 <= me < v.hall.lanes.len(),
    ensures
        roused(v, me, due).hall.lanes.len() == v.hall.lanes.len(),
        roused(v, me, due).hall.lanes[me].running == v.hall.lanes[me].running,
    decreases due.len(),
{
    if due.len() > 0 {
        lemma_roused_idle(v, me, due.drop_last());
    }
}

/// Whom a handle finds in a line is the first whose wait has this very handle, and where there
/// is one it finds one.
pub proof fn law_seat_is_exact(s: Seq<Waiter>, k: u64, from: int)
    requires
        0 <= from,
    ensures
        seat_of(s, k, from) matches Some(i) ==> from <= i < s.len() && s[i].tock == Some(k)
            && forall|j: int| from <= j < i ==> (#[trigger] s[j]).tock != Some(k),
        seat_of(s, k, from) is None ==> forall|j: int|
            from <= j < s.len() ==> (#[trigger] s[j]).tock != Some(k),
    decreases s.len() - from,
{
    if from < s.len() && s[from].tock != Some(k) {
        law_seat_is_exact(s, k, from + 1);
    }
}

/// A deadline that passes rouses the waiter that has it, whoever stands before it, and nobody
/// else: it leaves the line and stands last in the hart's queue, ready. A deadline without a
/// waiter rouses the sleeper that lies under it, and nobody where there is none.
pub proof fn law_deadline_rouses_its_own(v: PitView, me: int, k: u64, i: int)
    requires
        0 <= me < v.hall.lanes.len(),
        v.times.contains_key(k),
        v.sites.contains_key(v.times[k]),
        0 <= i < v.sites[v.times[k]].waiters.len(),
        v.sites[v.times[k]].waiters[i].tock == Some(k),
        forall|j: int|
            0 <= j < v.sites[v.times[k]].waiters.len() && (
            #[trigger] v.sites[v.times[k]].waiters[j]).tock == Some(k) ==> j == i,
    ensures
        ({
            let w = roused_one(v, me, k);
            let key = v.times[k];
            let line = v.sites[key].waiters;
            &&& rouses(v, k)
            &&& w.sites[key].waiters == line.remove(i)
            &&& w.sites[key].pend == v.sites[key].pend
            &&& !w.times.contains_key(k)
            &&& w.hall.lanes[me].starved.len() == v.hall.lanes[me].starved.len() + 1
            &&& w.hall.lanes[me].starved.last().id == line[i].task.id
            &&& w.hall.lanes[me].starved.last().trap == line[i].task.trap
            &&& w.hall.lanes[me].starved.last().state == TaskState::Starved
            &&& w.hall.lanes[me].starved.drop_last() == v.hall.lanes[me].starved
            &&& w.hall.lanes[me].running == v.hall.lanes[me].running
            &&& w.hall.blocked == v.hall.blocked
            &&& forall|o: u64| o != key ==> #[trigger] w.sites[o] == v.sites[o]
        }),
{
    law_seat_is_exact(v.sites[v.times[k]].waiters, k, 0);
    let w = roused_one(v, me, k);
    assert(w.hall.lanes[me].starved.drop_last() =~= v.hall.lanes[me].starved);
}

/// A deadline that belongs to no wait wakes the sleeper under it, if there is one.
pub proof fn law_deadline_wakes_its_sleeper(v: PitView, me: int, k: u64)
    requires
        0 <= me < v.hall.lanes.len(),
        !v.times.contains_key(k),
    ensures
        rouses(v, k) <==> v.hall.blocked.contains_key(k),
        !v.hall.blocked.contains_key(k) ==> roused_one(v, me, k) == v,
        v.hall.blocked.contains_key(k) ==> {
            let w = roused_one(v, me, k);
            &&& !w.hall.blocked.contains_key(k)
            &&& w.hall.lanes[me].starved.len() == v.hall.lanes[me].starved.len() + 1
            &&& w.hall.lanes[me].starved.last().id == v.hall.blocked[k].id
            &&& w.hall.lanes[me].starved.last().state == TaskState::Starved
            &&& w.hall.lanes[me].starved.drop_last() == v.hall.lanes[me].starved
            &&& w.sites == v.sites
            &&& w.times == v.times
        },
{
    if v.hall.blocked.contains_key(k) {
        let w = roused_one(v, me, k);
        assert(w.hall.lanes[me].starved.drop_last() =~= v.hall.lanes[me].starved);
    }
}

/// Who comes to wait stands last in the line, leaves its hart, and has the deadline that it
/// asked for, under a handle of its own, or none.
pub proof fn law_waiter_stands_last(v: PitView, me: int, key: u64, until: Option<u64>)
    requires
        0 <= me < v.hall.lanes.len(),
        v.hall.lanes[me].running is Some,
        v.hall.next_handle < u64::MAX,
    ensures
        ({
            let w = lined_up(v, me, key, until);
            let t = v.hall.lanes[me].running->0;
            let before = if v.sites.contains_key(key) {
                v.sites[key].waiters
            } else {
                Seq::empty()
            };
            &&& w.hall.lanes[me].running is None
            &&& w.hall.lanes[me].starved == v.hall.lanes[me].starved
            &&& w.sites.contains_key(key)
            &&& w.sites[key].waiters.len() == before.len() + 1
            &&& w.sites[key].waiters.drop_last() == before
            &&& w.sites[key].waiters.last().task.id == t.id
            &&& w.sites[key].waiters.last().task.trap == t.trap
            &&& w.sites[key].waiters.last().task.state == (TaskState::Blocked {
                reason: BlockReason::Wait { until },
            })
            &&& until is None ==> w.sites[key].waiters.last().tock is None && w.times == v.times
                && w.hall.next_handle == v.hall.next_handle
            &&& until is Some ==> w.sites[key].waiters.last().tock == Some(v.hall.next_handle)
                && w.times == v.times.insert(v.hall.next_handle, key) && w.hall.next_handle
                == v.hall.next_handle + 1
            &&& w.hall.blocked == v.hall.blocked
            &&& forall|o: u64| o != key ==> #[trigger] w.sites[o] == v.sites[o]
        }),
{
    let w = lined_up(v, me, key, until);
    assert(w.sites[key].waiters.drop_last() =~= site_at(v.sites, key).waiters);
}

/// An event takes the first of the line to the end of the hart's queue, ready, and its deadline
/// off; the others move up.
pub proof fn law_event_readies_the_first(v: PitView, me: int, key: u64)
    requires
        0 <= me < v.hall.lanes.len(),
        v.sites.contains_key(key),
        v.sites[key].waiters.len() > 0,
    ensures
        ({
            let w = signalled(v, me, key);
            let first = v.sites[key].waiters[0];
            &&& w.sites[key].waiters == v.sites[key].waiters.drop_first()
            &&& w.sites[key].pend == v.sites[key].pend
            &&& w.hall.lanes[me].starved.len() == v.hall.lanes[me].starved.len() + 1
            &&& w.hall.lanes[me].starved.last().id == first.task.id
            &&& w.hall.lanes[me].starved.last().state == TaskState::Starved
            &&& w.hall.lanes[me].starved.drop_last() == v.hall.lanes[me].starved
            &&& first.tock matches Some(h) ==> w.times == v.times.remove(h)
            &&& first.tock is None ==> w.times == v.times
            &&& forall|o: u64| o != key ==> #[trigger] w.sites[o] == v.sites[o]
        }),
{
    let w = signalled(v, me, key);
    let line = v.sites[key].waiters;
    assert(line.subrange(1, line.len() as int) =~= line.drop_first());
    assert(w.hall.lanes[me].starved.drop_last() =~= v.hall.lanes[me].starved);
}

/// Who asks to wait where an event came before goes on at once and takes the event; who does
/// not is given the deadline as many ticks after now as it asked for.
pub proof fn law_wait_takes_the_event(
    a: Pit,
    me: usize,
    key: u64,
    dur: Option<u64>,
    scene: Scene,
    b: Pit,
    tock: Option<Tock>,
    stride: Stride,
)
    requires
        dur matches Some(d) ==> scene.now + d <= u64::MAX,
        waited(a, me, key, dur, scene, b, tock, stride),
    ensures
        a@.sites.contains_key(key) && a@.sites[key].pend ==> {
            &&& tock is None
            &&& stride matches Stride::Run(d) && d.pa
                == a@.hall.lanes[me as int].running->0.trap.pa && !d.arm
            &&& !b@.sites[key].pend
            &&& b@.sites[key].waiters == a@.sites[key].waiters
            &&& b@.hall == a@.hall
        },
        !(a@.sites.contains_key(key) && a@.sites[key].pend) ==> {
            &&& dur is None <==> tock is None
            &&& dur matches Some(d) ==> tock->0.at == scene.now + d && tock->0.handle
                == a@.hall.next_handle
        },
{
}

/// The name of an event tells its address space and its address apart: the upper sixteen bits
/// are the one, the lower forty-eight the other.
pub proof fn law_event_name_has_both(asid: u64, va: u64)
    requires
        asid < 0x1_0000,
        va < 0x1_0000_0000_0000,
    ensures
        composed(asid, va) >> 48u64 == asid,
        composed(asid, va) & 0xFFFF_FFFF_FFFF == va,
{
    let c = composed(asid, va);
    assert(c >> 48u64 == asid && c & 0xFFFF_FFFF_FFFF == va) by (bit_vector)
        requires
            c == ((asid & 0xFFFF) << 48u64) | (va & 0xFFFF_FFFF_FFFF),
            asid < 0x1_0000,
            va < 0x1_0000_0000_0000,
    ;
}

/// The note of who is on a hart: whoever was put there last runs on it; a hart that has nobody
/// shows who left it last; and otherwise the note stays.
pub proof fn law_note_shows_who_runs(
    before: Option<Current>,
    stride: Stride,
    running: Option<Task>,
    left: Option<LastIdent>,
    badges: Seq<Badge>,
)
    ensures
        stride matches Stride::Run(d) && d.arm && running is Some ==> {
            let now = noted(before, stride, running, left, badges);
            &&& now is Some
            &&& now->0 is Live
            &&& now->0->Live_0.id == running->0.id
            &&& now->0->Live_0.team == running->0.team
            &&& now->0->Live_0.trap == running->0.trap
        },
        stride matches Stride::Run(d) && !d.arm ==> noted(before, stride, running, left, badges)
            == before,
        !(stride is Run) && left is Some ==> noted(before, stride, running, left, badges) == Some(
            Current::Last(left->0),
        ),
        !(stride is Run) && left is None ==> noted(before, stride, running, left, badges) == before,
{
}

/// Deadlines that pass together rouse one after the other, each as it would alone, and each that
/// rouses somebody is counted once.
pub proof fn law_deadlines_rouse_in_turn(v: PitView, me: int, due: Seq<u64>, k: u64)
    ensures
        roused(v, me, Seq::<u64>::empty()) == v,
        roused_count(v, me, Seq::<u64>::empty()) == 0,
        roused(v, me, due.push(k)) == roused_one(roused(v, me, due), me, k),
        roused_count(v, me, due.push(k)) == roused_count(v, me, due) + (if rouses(
            roused(v, me, due),
            k,
        ) {
            1nat
        } else {
            0nat
        }),
        roused_count(v, me, due) <= due.len(),
    decreases due.len(),
{
    assert(due.push(k).drop_last() =~= due);
    if due.len() > 0 {
        law_deadlines_rouse_in_turn(v, me, due.drop_last(), k);
    }
}

/// A hart that is called and finds that nobody was roused looks round for work: it takes the
/// first of its own queue, else robs the lowest other hart that has work and is not locked; it
/// is no longer marked as waiting then. Where there is none it halts if all is done and else
/// goes back to sleep, marked as it was.
pub proof fn law_called_hart_looks_round(
    a: Pit,
    me: usize,
    scene: Scene,
    b: Pit,
    stride: Stride,
)
    requires
        me < a@.hall.lanes.len(),
        scene.busy@.len() == a@.hall.lanes.len(),
        woken_up(a, me, scene, 0, b, stride),
    ensures
        ({
            let lanes = a@.hall.lanes;
            &&& lanes[me as int].starved.len() > 0 ==> {
                &&& stride matches Stride::Run(d) && d.pa == lanes[me as int].starved[0].trap.pa
                    && d.arm
                &&& b@.hall.lanes[me as int].running is Some
                &&& b@.hall.lanes[me as int].running->0.id == lanes[me as int].starved[0].id
            }
            &&& stride is Run ==> !b.hall.tie.waiting.has(me as int)
            &&& stride is Halt ==> a.hall.tie.pushed > 0 && a.hall.tie.pushed == a.hall.tie.reaped
            &&& stride is Sleep || stride is Halt ==> b@.hall == a@.hall
                && lanes[me as int].starved.len() == 0 && forall|h: int|
                0 <= h < lanes.len() && h != me && !(#[trigger] scene.busy@[h])
                    ==> lanes[h].starved.len() == 0
            &&& b@.sites == a@.sites && b@.times == a@.times
        }),
{
    crate::scheduler::moves::law_lowest_is_robbed(
        a@.hall.lanes,
        scene.busy@,
        me as int,
        0,
    );
}

/// A hart that is called and for which somebody was roused takes up the first of its queue.
pub proof fn law_called_hart_takes_up_the_roused(
    a: Pit,
    me: usize,
    scene: Scene,
    woke: nat,
    b: Pit,
    stride: Stride,
)
    requires
        woke > 0,
        me < a@.hall.lanes.len(),
        a@.hall.lanes[me as int].running is None,
        a@.hall.lanes[me as int].starved.len() > 0,
        woken_up(a, me, scene, woke, b, stride),
    ensures
        stride matches Stride::Run(d) && d.pa == a@.hall.lanes[me as int].starved[0].trap.pa && d.arm,
        b@.hall.lanes[me as int].running is Some,
        b@.hall.lanes[me as int].running->0.id == a@.hall.lanes[me as int].starved[0].id,
        b@.hall.lanes[me as int].starved == a@.hall.lanes[me as int].starved.drop_first(),
        !b.hall.tie.waiting.has(me as int),
{
    let mid = choose|mid: Pit| #[trigger]
        unmarked(a, mid, me) && goes_on(mid, me, scene, None, b, stride);
    let f = choose|f: crate::scheduler::lanes::Fetched| #[trigger]
        crate::scheduler::lanes::ran(
            mid.hall@.lanes,
            mid.hall.tie,
            me,
            scene.busy@,
            scene.again@,
            b.hall@.lanes,
            b.hall.tie,
            f,
        ) && stride == hall::stride_of(f, far(scene.next_tock, scene.now));
    crate::scheduler::moves::law_own_work_comes_first(
        mid.hall@.lanes,
        mid.hall.tie,
        me,
        scene.busy@,
        scene.again@,
        b.hall@.lanes,
        b.hall.tie,
        f,
    );
}

} // verus!
