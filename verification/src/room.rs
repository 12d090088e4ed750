//! The room: where tasks run, wait and end.
//!
//! [`Room`] is the whole of it. Every task is in exactly one container at a time: the
//! slot or the ready queue of a hart, the line at a site, its team, the husks. What
//! [`Room::wf`] says is that each container holds the tasks that are in it and no
//! others, that their states fit, that nobody waits at a site whose life has ended, and
//! that each deadline in the clock has its registration.
pub mod boot;
pub mod cascade;
pub mod conductor;
pub mod count;
pub mod laws;
pub mod lineage;
pub mod lines;
pub mod messenger;
pub mod moves;
pub mod scheduler;
pub mod shutdown;
pub mod tie;
pub mod turns;

use vstd::prelude::*;
use std::collections::VecDeque;
use crate::bits::{Ipi, MAX_HART_SLOTS};
use crate::room::conductor::Score;
use crate::room::conductor::{pick_of, picked};
use crate::room::messenger::wait::site::{FWD_MAX, Site, SiteView, Sites, WakeKey};
use crate::room::messenger::wait::site::{attached, fresh_site, waits_at};
use crate::room::scheduler::hart::{Lane, Scheduler};
use crate::room::scheduler::hart::{
    advanced,
    among,
    bodies,
    flying,
    lemma_same_bodies,
    moved_within,
    starved,
    swapped,
};
use crate::table::Table;
use crate::unit::chain::{agree_on, same_bodies, without};
use crate::unit::task::{FrameWords, Place, Task, TaskBody, TaskIdent, TaskState};

verus! {

/// A team: the tasks that share an address space.
pub struct Team {
    /// The task that founded it.
    pub sire: Option<usize>,
    /// Its address space.
    pub space: usize,
    /// Its tasks.
    pub tasks: Vec<usize>,
}

/// What a team holds.
#[verifier::ext_equal]
pub struct TeamView {
    pub sire: Option<usize>,
    pub space: usize,
    pub tasks: Seq<usize>,
}

impl Team {
    /// What the team holds.
    pub open spec fn held(self) -> TeamView {
        TeamView { sire: self.sire, space: self.space, tasks: self.tasks@ }
    }
}

/// How the tasks were found that were stopped from outside.
#[derive(Clone, Copy, Debug, PartialEq, Eq, Structural)]
pub struct CullStats {
    pub held: usize,
    pub starved: usize,
    pub blocked: usize,
    pub nudged: usize,
}

/// The whole room.
pub struct Room {
    /// What the conductor keeps.
    pub score: Score,
    /// The harts.
    pub lanes: Vec<Scheduler>,
    /// The roster: every task that ever was, under its number.
    pub tasks: Table<usize, Task>,
    /// The teams.
    pub teams: Table<usize, Team>,
    /// How many hold each address space.
    pub spaces: Table<usize, usize>,
    /// The lives that have not ended.
    pub lives: Table<usize, ()>,
    /// The sites.
    pub sites: Sites,
    /// Who holds which ticket, and for which key.
    pub holders: Table<u64, (WakeKey, usize)>,
    /// The clock's entries: when the deadline of which ticket passes.
    pub clock: Table<u64, u64>,
    /// The next ticket.
    pub next_ticket: u64,
    /// Tasks whose last rites are done, to be cleared away.
    pub husks: VecDeque<usize>,
    /// Tasks that are to stop as soon as they can be reached, and why.
    pub doomed: Table<usize, usize>,
    /// How many those are.
    pub pending: usize,
    /// How tasks were found that were stopped from outside.
    pub culled: CullStats,
    /// Why the task that runs on a hart is about to end.
    pub reasons: Vec<usize>,
    /// Interrupts to send.
    pub outbox: Vec<Ipi>,
}

/// What the room holds.
#[verifier::ext_equal]
pub struct RoomView {
    pub score: Score,
    pub lanes: Seq<Lane>,
    pub tasks: Map<usize, TaskBody>,
    /// Tasks that are on the way from one container to the next.
    pub flying: Set<usize>,
    pub teams: Map<usize, TeamView>,
    pub spaces: Map<usize, usize>,
    pub lives: Set<usize>,
    pub sites: Map<WakeKey, SiteView>,
    pub holders: Map<u64, (WakeKey, usize)>,
    pub clock: Map<u64, u64>,
    pub next_ticket: u64,
    pub husks: Seq<usize>,
    pub doomed: Map<usize, usize>,
    pub pending: usize,
    pub culled: CullStats,
    pub reasons: Seq<usize>,
    pub outbox: Seq<Ipi>,
}

impl View for Room {
    type V = RoomView;

    open spec fn view(&self) -> RoomView {
        RoomView {
            score: self.score,
            lanes: lane_views(self.lanes@),
            tasks: bodies(self.tasks@),
            flying: flying(self.tasks@),
            teams: self.teams@.map_values(|t: Team| t.held()),
            spaces: self.spaces@,
            lives: self.lives@.dom(),
            sites: site_views(self.sites@),
            holders: self.holders@,
            clock: self.clock@,
            next_ticket: self.next_ticket,
            husks: self.husks@,
            doomed: self.doomed@,
            pending: self.pending,
            culled: self.culled,
            reasons: self.reasons@,
            outbox: self.outbox@,
        }
    }
}

/// What each hart holds.
pub open spec fn lane_views(lanes: Seq<Scheduler>) -> Seq<Lane> {
    lanes.map_values(|s: Scheduler| s.lane())
}

/// What each site holds.
pub open spec fn site_views(sites: Map<WakeKey, Site>) -> Map<WakeKey, SiteView> {
    sites.map_values(|s: Site| s.held())
}

impl RoomView {
    /// The room with the state of one task changed.
    pub open spec fn set_state(self, id: usize, state: TaskState) -> RoomView {
        RoomView {
            tasks: self.tasks.insert(id, (TaskBody { state, ..self.tasks[id] })),
            ..self
        }
    }

    /// The room with one site changed.
    pub open spec fn set_site(self, key: WakeKey, s: SiteView) -> RoomView {
        RoomView { sites: self.sites.insert(key, s), ..self }
    }

    /// The hart that [`conductor::pick`] gives to `me`.
    pub open spec fn pick(self, me: usize) -> usize {
        pick_of(self.score, me, self.lanes.len() as usize)
    }

    /// The room after the task `id`, starved and in flight, was handed to the hart that
    /// the conductor picks: it stands last in that hart's queue, and the hart is
    /// interrupted if it waits.
    pub open spec fn kicked(self, me: usize, id: usize) -> RoomView {
        let h = self.pick(me) as int;
        let ringing = self.score.waits(h);
        RoomView {
            score: Score {
                cursor: self.score.cursor.wrapping_add(1),
                kicks: if ringing {
                    self.score.kicks.wrapping_add(1)
                } else {
                    self.score.kicks
                },
                fallback: if ringing {
                    self.score.fallback
                } else {
                    self.score.fallback.wrapping_add(1)
                },
                ..self.score
            },
            lanes: self.lanes.update(
                h,
                Lane { queue: self.lanes[h].queue.push(id), ..self.lanes[h] },
            ),
            flying: self.flying.remove(id),
            outbox: if ringing {
                self.outbox.push(conductor::nudge_call(h))
            } else {
                self.outbox
            },
            ..self
        }
    }

    /// The room after the task `id`, in flight, was made ready again.
    pub open spec fn risen(self, me: usize, id: usize) -> RoomView {
        self.set_state(id, TaskState::Starved).kicked(me, id)
    }

    /// Whether nobody is in flight but the doomed, whose last rites are under way.
    pub open spec fn settled(self) -> bool {
        forall|x: usize| #[trigger]
            self.flying.contains(x) ==> self.tasks[x].state == TaskState::Doomed
    }

    /// Whether the life `life` has not ended.
    pub open spec fn alive(self, life: usize) -> bool {
        self.lives.contains(life)
    }
}

impl Room {
    /// Whether every task is where its place says, and every container agrees.
    pub open spec fn wf(self) -> bool {
        &&& self.sites.wf()
        &&& 0 < self.lanes@.len() <= MAX_HART_SLOTS
        &&& forall|h: int|
            0 <= h < self.lanes@.len() ==> (#[trigger] self.lanes@[h]).hart == h
                && self.lanes@[h].wf(self.tasks@)
        &&& forall|k: WakeKey| #[trigger]
            self.sites@.contains_key(k) ==> self.sites@[k].wf(k, self.tasks@)
        &&& forall|id: usize| #[trigger] self.tasks@.contains_key(id) ==> self.homed(id)
        &&& self.husks@.no_duplicates()
        &&& forall|i: int|
            0 <= i < self.husks@.len() ==> self.tasks@.contains_key(#[trigger] self.husks@[i])
                && self.tasks@[self.husks@[i]].place@ == Place::Husk
                && self.tasks@[self.husks@[i]].state == TaskState::Reaped
        &&& forall|h: int| #[trigger] self.score.waits(h) ==> 0 <= h < self.lanes@.len()
        &&& self.reasons@.len() == MAX_HART_SLOTS
        &&& self.doomed@.dom().finite()
        &&& self.pending == self.doomed@.dom().len()
        &&& forall|k: WakeKey| #[trigger]
            self.sites@.contains_key(k) ==> self.sites@[k].chain.order().len() == 0
                || self.lives@.contains_key(self.sites@[k].life)
        &&& forall|t: u64| #[trigger]
            self.clock@.contains_key(t) ==> self.holders@.contains_key(t)
    }

    /// Whether the container that the task `id` is in exists.
    pub open spec fn homed(self, id: usize) -> bool {
        let t = self.tasks@[id];
        &&& t.ident.id == id
        &&& t.buried == (t.place@ == Place::Gone)
        &&& match t.place@ {
            Place::Flight => true,
            Place::Team => t.state == TaskState::Held,
            Place::Slot(h) => 0 <= h < self.lanes@.len(),
            Place::Lane(h) => 0 <= h < self.lanes@.len(),
            Place::Site(k) => self.sites@.contains_key(k),
            Place::Husk => self.husks@.contains(id),
            Place::Gone => t.state == TaskState::Reaped,
        }
    }

    /// Nothing but hart `h` and the tasks that moved between its containers differs.
    spec fn lane_step(a: Room, b: Room, h: int) -> bool {
        &&& 0 <= h < a.lanes@.len()
        &&& b.lanes@.len() == a.lanes@.len()
        &&& b.lanes@[h].hart == h
        &&& b.lanes@[h].wf(b.tasks@)
        &&& forall|j: int| 0 <= j < a.lanes@.len() && j != h ==> b.lanes@[j] == a.lanes@[j]
        &&& moved_within(a.tasks@, b.tasks@, Place::Lane(h), Place::Slot(h))
        &&& b.sites == a.sites
        &&& b.husks == a.husks
        &&& b.reasons == a.reasons
        &&& b.doomed == a.doomed
        &&& b.pending == a.pending
        &&& b.score.waiting == a.score.waiting
        &&& b.lives == a.lives
        &&& b.holders == a.holders
        &&& b.clock == a.clock
    }

    proof fn lemma_lane_step(a: Room, b: Room, h: int)
        requires
            a.wf(),
            Self::lane_step(a, b, h),
        ensures
            b.wf(),
    {
        let (p, q) = (Place::Lane(h), Place::Slot(h));
        assert forall|j: int| 0 <= j < b.lanes@.len() implies (#[trigger] b.lanes@[j]).hart == j
            && b.lanes@[j].wf(b.tasks@) by {
            assert(a.lanes@[j].hart == j);
            if j != h {
                a.lanes@[j].lemma_frame(a.tasks@, b.tasks@, p, q);
            }
        }
        assert forall|k: WakeKey| #[trigger] b.sites@.contains_key(k) implies b.sites@[k].wf(
            k,
            b.tasks@,
        ) by {
            lemma_site_frame(a.sites@[k], k, a.tasks@, b.tasks@, p, q);
        }
        assert forall|id: usize| #[trigger] b.tasks@.contains_key(id) implies b.homed(id) by {
            assert(a.tasks@.contains_key(id) && a.homed(id));
        }
        assert forall|i: int| 0 <= i < b.husks@.len() implies b.tasks@.contains_key(
            #[trigger] b.husks@[i],
        ) && b.tasks@[b.husks@[i]].place@ == Place::Husk && b.tasks@[b.husks@[i]].state
            == TaskState::Reaped by {
            assert(a.tasks@.contains_key(a.husks@[i]));
        }
        assert forall|j: int| #[trigger] b.score.waits(j) implies 0 <= j < b.lanes@.len() by {
            assert(a.score.waits(j));
        }
    }
}

impl RoomView {
    /// The room after the running task of hart `h` has left and the first ready one
    /// has taken its place.
    pub open spec fn swapped_out(self, h: int) -> RoomView {
        let (l, b) = swapped(self.lanes[h], self.tasks);
        RoomView {
            lanes: self.lanes.update(h, l),
            tasks: b,
            flying: self.flying.insert(self.lanes[h].running->0),
            ..self
        }
    }

    /// The frame that hart `h` resumes after [`RoomView::swapped_out`].
    pub open spec fn next_frame(self, h: int) -> Option<usize> {
        if self.lanes[h].queue.len() == 0 {
            None
        } else {
            Some(self.tasks[self.lanes[h].queue[0]].ident.frame)
        }
    }

    /// The room after hart `h` has given way.
    pub open spec fn given_way(self, h: int) -> RoomView {
        let (l, b) = starved(self.lanes[h], self.tasks);
        RoomView { lanes: self.lanes.update(h, l), tasks: b, ..self }
    }

    /// The room after a timer tick on hart `h`.
    pub open spec fn ticked(self, h: int) -> RoomView {
        let (l, b) = advanced(self.lanes[h], self.tasks);
        RoomView { lanes: self.lanes.update(h, l), tasks: b, ..self }
    }

    /// The room after the first ready task of hart `h` has left its queue.
    pub open spec fn pulled(self, h: int) -> RoomView {
        let l = self.lanes[h];
        RoomView {
            lanes: self.lanes.update(h, Lane { queue: l.queue.drop_first(), ..l }),
            flying: self.flying.insert(l.queue[0]),
            ..self
        }
    }

    /// The room after the task `id` has been put into the slot of hart `h`.
    pub open spec fn seated(self, h: int, id: usize) -> RoomView {
        let l = self.lanes[h];
        RoomView {
            lanes: self.lanes.update(
                h,
                Lane {
                    running: Some(id),
                    badge: crate::room::scheduler::ident::Badge::Live(self.tasks[id].ident),
                    ..l
                },
            ),
            tasks: self.tasks.insert(id, l.prepared(self.tasks[id])),
            flying: self.flying.remove(id),
            ..self
        }
    }
}

impl Room {
    /// The tasks of a ready queue, and the one in the slot, are not in flight.
    pub proof fn lemma_queue_not_flying(self, h: int)
        requires
            self.wf(),
            0 <= h < self.lanes@.len(),
        ensures
            forall|i: int|
                0 <= i < self@.lanes[h].queue.len() ==> !self@.flying.contains(
                    #[trigger] self@.lanes[h].queue[i],
                ),
            self@.lanes[h].running is Some ==> !self@.flying.contains(
                self@.lanes[h].running->0,
            ),
    {
        assert(self.lanes@[h].hart == h);
        self.lanes@[h].ready.lemma_members(self.tasks@);
    }

    /// Takes the running task of hart `h` off; the first ready one takes its place.
    /// Gives the task that left, in flight, and the next frame.
    pub fn swap(&mut self, h: usize) -> (r: (usize, Option<usize>))
        requires
            old(self).wf(),
            h < old(self).lanes@.len(),
            old(self)@.lanes[h as int].running is Some,
        ensures
            final(self).wf(),
            final(self)@ == old(self)@.swapped_out(h as int),
            r == (old(self)@.lanes[h as int].running->0, old(self)@.next_frame(h as int)),
            old(self)@.tasks.contains_key(r.0),
            old(self)@.tasks[r.0].state is Running,
    {
        assert(self.lanes@[h as int].hart == h);
        let r: (usize, Option<usize>) = self.lanes[h].swap(&mut self.tasks);
        proof {
            assert(Self::lane_step(*old(self), *self, h as int));
            Self::lemma_lane_step(*old(self), *self, h as int);
            assert(self@ =~= old(self)@.swapped_out(h as int));
        }
        r
    }

    /// Hart `h` gives way. Gives the frame to resume.
    pub fn starve(&mut self, h: usize) -> (pa: usize)
        requires
            old(self).wf(),
            h < old(self).lanes@.len(),
            old(self)@.lanes[h as int].running is Some,
        ensures
            final(self).wf(),
            final(self)@ == old(self)@.given_way(h as int),
            pa == final(self)@.tasks[final(self)@.lanes[h as int].running->0].ident.frame,
    {
        assert(self.lanes@[h as int].hart == h);
        let pa: usize = self.lanes[h].starve(&mut self.tasks);
        proof {
            assert(Self::lane_step(*old(self), *self, h as int));
            Self::lemma_lane_step(*old(self), *self, h as int);
            assert(self@ =~= old(self)@.given_way(h as int));
        }
        pa
    }

    /// A timer tick on hart `h`. Gives the frame to resume; `None` where nobody runs.
    pub fn advance(&mut self, h: usize) -> (pa: Option<usize>)
        requires
            old(self).wf(),
            h < old(self).lanes@.len(),
        ensures
            final(self).wf(),
            final(self)@ == old(self)@.ticked(h as int),
            pa is None <==> old(self)@.lanes[h as int].running is None,
            pa is Some ==> pa->0 == final(self)@.tasks[final(self)@.lanes[h as int].running->0].ident.frame,
    {
        assert(self.lanes@[h as int].hart == h);
        let pa: Option<usize> = self.lanes[h].advance(&mut self.tasks);
        proof {
            assert(Self::lane_step(*old(self), *self, h as int));
            Self::lemma_lane_step(*old(self), *self, h as int);
            assert(self@ =~= old(self)@.ticked(h as int));
        }
        pa
    }

    /// Takes the first ready task of hart `h`; it is in flight then.
    pub fn pull(&mut self, h: usize) -> (id: Option<usize>)
        requires
            old(self).wf(),
            h < old(self).lanes@.len(),
        ensures
            final(self).wf(),
            id is None <==> old(self)@.lanes[h as int].queue.len() == 0,
            id is None ==> final(self)@ == old(self)@,
            id matches Some(id) ==> {
                &&& id == old(self)@.lanes[h as int].queue[0]
                &&& final(self)@ == old(self)@.pulled(h as int)
                &&& old(self)@.tasks.contains_key(id)
                &&& !old(self)@.flying.contains(id)
                &&& old(self)@.tasks[id].state == TaskState::Starved
            },
    {
        assert(self.lanes@[h as int].hart == h);
        proof {
            self.lanes@[h as int].ready.lemma_members(self.tasks@);
        }
        let id: Option<usize> = self.lanes[h].pull(&mut self.tasks);
        proof {
            assert(Self::lane_step(*old(self), *self, h as int));
            Self::lemma_lane_step(*old(self), *self, h as int);
            if id is Some {
                assert(self@ =~= old(self)@.pulled(h as int));
            } else {
                assert(self@ =~= old(self)@);
            }
        }
        id
    }

    /// Puts the task `id`, starved and in flight, into the empty slot of hart `h`.
    /// Gives the frame to resume.
    pub fn seat(&mut self, h: usize, id: usize) -> (pa: usize)
        requires
            old(self).wf(),
            h < old(self).lanes@.len(),
            old(self)@.lanes[h as int].running is None,
            old(self)@.flying.contains(id),
            old(self)@.tasks[id].state == TaskState::Starved,
        ensures
            final(self).wf(),
            final(self)@ == old(self)@.seated(h as int, id),
            pa == old(self)@.tasks[id].ident.frame,
    {
        assert(self.lanes@[h as int].hart == h);
        let pa: usize = self.lanes[h].seat(&mut self.tasks, id);
        proof {
            assert(Self::lane_step(*old(self), *self, h as int));
            Self::lemma_lane_step(*old(self), *self, h as int);
            assert(self@ =~= old(self)@.seated(h as int, id));
        }
        pa
    }

    /// Sets the state of a task in flight.
    pub fn transform(&mut self, id: usize, state: TaskState)
        requires
            old(self).wf(),
            old(self)@.flying.contains(id),
        ensures
            final(self).wf(),
            final(self)@ == old(self)@.set_state(id, state),
    {
        let ghost before = self.tasks@;
        match self.tasks.get_mut(id) {
            Some(t) => {
                t.state = state;
            },
            None => {},
        }
        proof {
            assert(self.tasks@.dom() =~= before.dom());
            assert(bodies(self.tasks@) =~= bodies(before).insert(
                id,
                (TaskBody { state, ..bodies(before)[id] }),
            ));
            assert(flying(self.tasks@) =~= flying(before));
            assert(moved_within(before, self.tasks@, Place::Flight, Place::Flight));
            old(self).lanes@[0].lemma_frame(before, self.tasks@, Place::Flight, Place::Flight);
            assert(Self::lane_step(*old(self), *self, 0));
            Self::lemma_lane_step(*old(self), *self, 0);
            assert(self@ =~= old(self)@.set_state(id, state));
        }
    }

    /// Hands the task `id`, starved and in flight, to the hart that the conductor picks,
    /// and interrupts that hart if it waits.
    pub fn kick(&mut self, me: usize, id: usize)
        requires
            old(self).wf(),
            old(self)@.flying.contains(id),
            old(self)@.tasks[id].state == TaskState::Starved,
        ensures
            final(self).wf(),
            final(self)@ == old(self)@.kicked(me, id),
            old(self)@.pick(me) < old(self).lanes@.len(),
    {
        let n: usize = self.lanes.len();
        let h: usize = conductor::pick(&mut self.score, me, n);
        proof {
            assert(picked(old(self).score, me, n, pick_of(old(self).score, me, n)));
            conductor::lemma_picked_unique(old(self).score, me, n, h, old(self)@.pick(me));
            assert(old(self).score.waits(h as int) ==> h < n);
        }
        assert(self.lanes@[h as int].hart == h);
        self.lanes[h].push(&mut self.tasks, id);
        let ringing: bool = conductor::waiting(&self.score, h);
        assert(ringing == old(self).score.waits(h as int));
        if ringing {
            conductor::note_kick_ipi(&mut self.score);
            self.outbox.push(conductor::nudge(h));
        } else {
            conductor::note_fallback(&mut self.score);
        }
        proof {
            assert(Self::lane_step(*old(self), *self, h as int));
            Self::lemma_lane_step(*old(self), *self, h as int);
            assert(self@ =~= old(self)@.kicked(me, id));
        }
    }

    /// Puts the task `id`, starved and in flight, last into the queue of hart `h`.
    pub fn lane_push(&mut self, h: usize, id: usize)
        requires
            old(self).wf(),
            h < old(self).lanes@.len(),
            old(self)@.flying.contains(id),
            old(self)@.tasks[id].state == TaskState::Starved,
        ensures
            final(self).wf(),
            final(self)@ == (RoomView {
                lanes: old(self)@.lanes.update(
                    h as int,
                    Lane {
                        queue: old(self)@.lanes[h as int].queue.push(id),
                        ..old(self)@.lanes[h as int]
                    },
                ),
                flying: old(self)@.flying.remove(id),
                ..old(self)@
            }),
    {
        assert(self.lanes@[h as int].hart == h);
        self.lanes[h].push(&mut self.tasks, id);
        proof {
            assert(Self::lane_step(*old(self), *self, h as int));
            Self::lemma_lane_step(*old(self), *self, h as int);
            assert(self@ =~= (RoomView {
                lanes: old(self)@.lanes.update(
                    h as int,
                    Lane {
                        queue: old(self)@.lanes[h as int].queue.push(id),
                        ..old(self)@.lanes[h as int]
                    },
                ),
                flying: old(self)@.flying.remove(id),
                ..old(self)@
            }));
        }
    }

    /// Takes `id` out of the ready queue of hart `h`; it is in flight then. `false`
    /// where it is not in it.
    pub fn lane_remove(&mut self, h: usize, id: usize) -> (found: bool)
        requires
            old(self).wf(),
            h < old(self).lanes@.len(),
        ensures
            final(self).wf(),
            found == old(self)@.lanes[h as int].queue.contains(id),
            !found ==> final(self)@ == old(self)@,
            found ==> {
                &&& final(self)@ == (RoomView {
                    lanes: old(self)@.lanes.update(
                        h as int,
                        Lane {
                            queue: without(old(self)@.lanes[h as int].queue, id),
                            ..old(self)@.lanes[h as int]
                        },
                    ),
                    flying: old(self)@.flying.insert(id),
                    ..old(self)@
                })
                &&& old(self)@.tasks.contains_key(id)
                &&& !old(self)@.flying.contains(id)
                &&& old(self)@.tasks[id].state == TaskState::Starved
            },
    {
        assert(self.lanes@[h as int].hart == h);
        proof {
            self.lanes@[h as int].ready.lemma_members(self.tasks@);
        }
        let found: bool = self.lanes[h].starved_remove(&mut self.tasks, id);
        proof {
            assert(Self::lane_step(*old(self), *self, h as int));
            Self::lemma_lane_step(*old(self), *self, h as int);
            if found {
                assert(self@ =~= (RoomView {
                    lanes: old(self)@.lanes.update(
                        h as int,
                        Lane {
                            queue: without(old(self)@.lanes[h as int].queue, id),
                            ..old(self)@.lanes[h as int]
                        },
                    ),
                    flying: old(self)@.flying.insert(id),
                    ..old(self)@
                }));
            } else {
                assert(self@ =~= old(self)@);
            }
        }
        found
    }
}

impl Room {
    /// Nothing but the site of `key` and the tasks that moved between its line and
    /// flight differs.
    spec fn site_step(a: Room, b: Room, key: WakeKey) -> bool {
        &&& b.sites.wf()
        &&& b.sites@.contains_key(key)
        &&& b.sites@[key].wf(key, b.tasks@)
        &&& forall|k: WakeKey|
            k != key ==> (#[trigger] b.sites@.contains_key(k) <==> a.sites@.contains_key(k))
        &&& forall|k: WakeKey|
            k != key && #[trigger] a.sites@.contains_key(k) ==> b.sites@[k] == a.sites@[k]
        &&& moved_within(a.tasks@, b.tasks@, Place::Site(key), Place::Site(key))
        &&& b.lanes == a.lanes
        &&& b.husks == a.husks
        &&& b.reasons == a.reasons
        &&& b.doomed == a.doomed
        &&& b.pending == a.pending
        &&& b.score == a.score
        &&& b.lives == a.lives
        &&& b.holders == a.holders
        &&& b.clock == a.clock
        &&& b.sites@[key].chain.order().len() == 0 || b.lives@.contains_key(b.sites@[key].life)
    }

    proof fn lemma_site_step(a: Room, b: Room, key: WakeKey)
        requires
            a.wf(),
            Self::site_step(a, b, key),
        ensures
            b.wf(),
    {
        let p = Place::Site(key);
        assert forall|j: int| 0 <= j < b.lanes@.len() implies (#[trigger] b.lanes@[j]).hart == j
            && b.lanes@[j].wf(b.tasks@) by {
            a.lanes@[j].lemma_frame(a.tasks@, b.tasks@, p, p);
        }
        assert forall|k: WakeKey| #[trigger] b.sites@.contains_key(k) implies b.sites@[k].wf(
            k,
            b.tasks@,
        ) by {
            if k != key {
                assert(a.sites@.contains_key(k));
                lemma_site_frame(a.sites@[k], k, a.tasks@, b.tasks@, p, p);
            }
        }
        assert forall|id: usize| #[trigger] b.tasks@.contains_key(id) implies b.homed(id) by {
            assert(a.tasks@.contains_key(id) && a.homed(id));
        }
        assert forall|i: int| 0 <= i < b.husks@.len() implies b.tasks@.contains_key(
            #[trigger] b.husks@[i],
        ) && b.tasks@[b.husks@[i]].place@ == Place::Husk && b.tasks@[b.husks@[i]].state
            == TaskState::Reaped by {
            assert(a.tasks@.contains_key(a.husks@[i]));
        }
    }

    /// Makes the site of `key`, at which nobody waits yet.
    pub fn open_site(&mut self, key: WakeKey, life: usize)
        requires
            old(self).wf(),
            !old(self)@.sites.contains_key(key),
        ensures
            final(self).wf(),
            final(self)@ == old(self)@.set_site(key, fresh_site(life)),
    {
        let site: Site = Site::new(Ghost(key), life);
        proof {
            assert forall|k: usize| #[trigger] self.tasks@.contains_key(k) implies self.tasks@[k].place@
                != Place::Site(key) by {
                assert(self.homed(k));
            }
            assert(site.chain.wf(self.tasks@));
        }
        self.sites.insert(key, site);
        proof {
            assert(site.held().line.len() == 0);
            assert(Self::site_step(*old(self), *self, key));
            Self::lemma_site_step(*old(self), *self, key);
            assert(self@.sites =~= old(self)@.sites.insert(key, fresh_site(life)));
            assert(self@ =~= old(self)@.set_site(key, fresh_site(life)));
        }
    }

    /// Puts the task `id`, in flight, at the end of the line at `key`, for which it
    /// waits. The life of the site has not ended.
    pub fn site_push(&mut self, key: WakeKey, id: usize)
        requires
            old(self).wf(),
            old(self)@.sites.contains_key(key),
            old(self)@.flying.contains(id),
            old(self)@.tasks[id].state is Blocked,
            old(self)@.tasks[id].state->key == key,
            old(self)@.alive(old(self)@.sites[key].life),
        ensures
            final(self).wf(),
            final(self)@ == (RoomView {
                flying: old(self)@.flying.remove(id),
                ..old(self)@.set_site(
                    key,
                    SiteView {
                        line: old(self)@.sites[key].line.push(id),
                        ..old(self)@.sites[key]
                    },
                )
            }),
    {
        let ghost before = self.tasks@;
        let ghost was = self.sites@[key];
        match self.sites.get_mut(key) {
            Some(site) => {
                proof {
                    site.chain.lemma_members(before);
                }
                site.chain.push_back(&mut self.tasks, id);
            },
            None => {},
        }
        proof {
            let now = self.sites@[key];
            assert(now.chain.order() == was.chain.order().push(id));
            lemma_same_bodies(before, self.tasks@);
            assert(self.tasks@.dom() =~= before.dom());
            assert forall|i: int| 0 <= i < now.chain.order().len() implies waits_at(
                self.tasks@[#[trigger] now.chain.order()[i]],
                key,
            ) by {
                let k = now.chain.order()[i];
                if i < was.chain.order().len() {
                    assert(k == was.chain.order()[i]);
                    was.chain.lemma_members(before);
                }
                assert(before.contains_key(k));
                assert(self.tasks@[k].body() == before[k].body());
            }
            assert forall|k: usize| #[trigger] before.contains_key(k) implies self.tasks@[k].ident
                == before[k].ident && self.tasks@[k].buried == before[k].buried by {
                assert(self.tasks@[k].body() == before[k].body());
            }
            assert(Self::site_step(*old(self), *self, key));
            Self::lemma_site_step(*old(self), *self, key);
            assert(flying(self.tasks@) =~= flying(before).remove(id));
            let want = SiteView {
                line: old(self)@.sites[key].line.push(id),
                ..old(self)@.sites[key]
            };
            assert(now.held() =~= want);
            assert(self@.sites =~= old(self)@.sites.insert(key, want));
            assert(self@ =~= (RoomView {
                flying: old(self)@.flying.remove(id),
                ..old(self)@.set_site(key, want)
            }));
        }
    }

    /// Takes the first task of the line at `key`; it is in flight then. `None` where
    /// nobody waits or `key` has no site.
    pub fn site_pop(&mut self, key: WakeKey) -> (id: Option<usize>)
        requires
            old(self).wf(),
        ensures
            final(self).wf(),
            id is None <==> !old(self)@.sites.contains_key(key)
                || old(self)@.sites[key].line.len() == 0,
            id is None ==> final(self)@ == old(self)@,
            id matches Some(id) ==> {
                &&& id == old(self)@.sites[key].line[0]
                &&& final(self)@ == old(self)@.popped(key)
                &&& old(self)@.tasks.contains_key(id)
                &&& !old(self)@.flying.contains(id)
                &&& old(self)@.tasks[id].state is Blocked
                &&& old(self)@.tasks[id].state->key == key
            },
    {
        let ghost before = self.tasks@;
        let ghost was = self.sites@[key];
        let mut id: Option<usize> = None;
        match self.sites.get_mut(key) {
            Some(site) => {
                id = site.chain.pop_front(&mut self.tasks);
            },
            None => {},
        }
        proof {
            if old(self).sites@.contains_key(key) {
                let now = self.sites@[key];
                if id is Some {
                    lemma_same_bodies(before, self.tasks@);
                }
                was.chain.lemma_members(before);
                assert(self.tasks@.dom() =~= before.dom());
                assert forall|i: int| 0 <= i < now.chain.order().len() implies waits_at(
                    self.tasks@[#[trigger] now.chain.order()[i]],
                    key,
                ) by {
                    let k = now.chain.order()[i];
                    let j = if id is Some {
                        i + 1
                    } else {
                        i
                    };
                    assert(k == was.chain.order()[j]);
                    assert(before.contains_key(k));
                    assert(self.tasks@[k].body() == before[k].body());
                }
                assert forall|k: usize| #[trigger]
                    before.contains_key(k) implies self.tasks@[k].ident == before[k].ident
                    && self.tasks@[k].buried == before[k].buried by {
                    assert(self.tasks@[k].body() == before[k].body());
                }
                assert(Self::site_step(*old(self), *self, key));
                Self::lemma_site_step(*old(self), *self, key);
                if id is Some {
                    let i = id->0;
                    assert(was.chain.order()[0] == i);
                    assert(waits_at(before[i], key));
                    assert(flying(self.tasks@) =~= flying(before).insert(i));
                    let want = SiteView {
                        line: old(self)@.sites[key].line.drop_first(),
                        ..old(self)@.sites[key]
                    };
                    assert(now.held() =~= want);
                    assert(self@.sites =~= old(self)@.sites.insert(key, want));
                    assert(self@ =~= old(self)@.popped(key));
                } else {
                    assert(now.held() =~= was.held());
                    assert(self@.sites =~= old(self)@.sites);
                    assert(self@ =~= old(self)@);
                }
            } else {
                assert(self@ =~= old(self)@);
            }
        }
        id
    }

    /// Takes `id` out of the line at `key`, wherever in it it stands; it is in flight
    /// then. `false` where it is not in it.
    pub fn site_remove(&mut self, key: WakeKey, id: usize) -> (found: bool)
        requires
            old(self).wf(),
        ensures
            final(self).wf(),
            found == (old(self)@.sites.contains_key(key) && old(self)@.sites[key].line.contains(
                id,
            )),
            !found ==> final(self)@ == old(self)@,
            found ==> {
                &&& final(self)@ == old(self)@.plucked(key, id)
                &&& old(self)@.tasks.contains_key(id)
                &&& !old(self)@.flying.contains(id)
                &&& old(self)@.tasks[id].state is Blocked
                &&& old(self)@.tasks[id].state->key == key
            },
    {
        let ghost before = self.tasks@;
        let ghost was = self.sites@[key];
        let mut found: bool = false;
        match self.sites.get_mut(key) {
            Some(site) => {
                found = site.chain.remove(&mut self.tasks, id);
            },
            None => {},
        }
        proof {
            if old(self).sites@.contains_key(key) {
                let now = self.sites@[key];
                if found {
                    lemma_same_bodies(before, self.tasks@);
                }
                was.chain.lemma_members(before);
                now.chain.lemma_members(self.tasks@);
                assert(self.tasks@.dom() =~= before.dom());
                assert forall|k: usize| was.chain.order().contains(k) implies waits_at(
                    before[k],
                    key,
                ) by {
                    let j = choose|j: int|
                        0 <= j < was.chain.order().len() && was.chain.order()[j] == k;
                    assert(waits_at(before[was.chain.order()[j]], key));
                }
                assert forall|i: int| 0 <= i < now.chain.order().len() implies waits_at(
                    self.tasks@[#[trigger] now.chain.order()[i]],
                    key,
                ) by {
                    let k = now.chain.order()[i];
                    assert(now.chain.order().contains(k));
                    assert(before.contains_key(k));
                    assert(was.chain.order().contains(k));
                    assert(waits_at(before[k], key));
                    assert(self.tasks@[k].body() == before[k].body());
                }
                assert forall|k: usize| #[trigger]
                    before.contains_key(k) implies self.tasks@[k].ident == before[k].ident
                    && self.tasks@[k].buried == before[k].buried by {
                    assert(self.tasks@[k].body() == before[k].body());
                }
                assert(Self::site_step(*old(self), *self, key));
                Self::lemma_site_step(*old(self), *self, key);
                if found {
                    assert(flying(self.tasks@) =~= flying(before).insert(id));
                    let want = SiteView {
                        line: without(old(self)@.sites[key].line, id),
                        ..old(self)@.sites[key]
                    };
                    assert(now.held() =~= want);
                    assert(self@.sites =~= old(self)@.sites.insert(key, want));
                    assert(self@ =~= old(self)@.plucked(key, id));
                } else {
                    assert(now.held() =~= was.held());
                    assert(self@.sites =~= old(self)@.sites);
                    assert(self@ =~= old(self)@);
                }
            } else {
                assert(self@ =~= old(self)@);
            }
        }
        found
    }

    /// Sets or clears the beacon of the site of `key`.
    pub fn set_pend(&mut self, key: WakeKey, pend: bool)
        requires
            old(self).wf(),
            old(self)@.sites.contains_key(key),
        ensures
            final(self).wf(),
            final(self)@ == old(self)@.set_site(
                key,
                SiteView { pend, ..old(self)@.sites[key] },
            ),
    {
        match self.sites.get_mut(key) {
            Some(site) => {
                site.pend = pend;
            },
            None => {},
        }
        proof {
            assert(Self::site_step(*old(self), *self, key));
            Self::lemma_site_step(*old(self), *self, key);
            let want = SiteView { pend, ..old(self)@.sites[key] };
            assert(self.sites@[key].held() =~= want);
            assert(self@.sites =~= old(self)@.sites.insert(key, want));
            assert(self@ =~= old(self)@.set_site(key, want));
        }
    }

    /// Attaches `tole` to the site of `key`.
    pub fn attach(&mut self, key: WakeKey, tole: usize, life: usize) -> (r: Result<(), ()>)
        requires
            old(self).wf(),
            old(self)@.sites.contains_key(key),
        ensures
            final(self).wf(),
            ({
                let s = old(self)@.sites[key];
                if attached(s.fwd, tole) {
                    r is Ok && final(self)@ == old(self)@
                } else if s.fwd.len() == FWD_MAX {
                    r is Err && final(self)@ == old(self)@
                } else {
                    r is Ok && final(self)@ == old(self)@.set_site(
                        key,
                        SiteView { fwd: s.fwd.push((tole, life)), ..s },
                    )
                }
            }),
            old(self)@.sites[key].fwd.len() <= FWD_MAX,
    {
        let mut r: Result<(), ()> = Ok(());
        match self.sites.get_mut(key) {
            Some(site) => {
                site.fwd.bound();
                r = site.fwd.attach(tole, life);
            },
            None => {},
        }
        proof {
            assert(Self::site_step(*old(self), *self, key));
            Self::lemma_site_step(*old(self), *self, key);
            let now = self.sites@[key];
            let s = old(self)@.sites[key];
            if attached(s.fwd, tole) || s.fwd.len() == FWD_MAX {
                assert(now.held() =~= s);
                assert(self@.sites =~= old(self)@.sites);
                assert(self@ =~= old(self)@);
            } else {
                let want = SiteView { fwd: s.fwd.push((tole, life)), ..s };
                assert(now.held() =~= want);
                assert(self@.sites =~= old(self)@.sites.insert(key, want));
                assert(self@ =~= old(self)@.set_site(key, want));
            }
        }
        r
    }

    /// Detaches `tole` from the site of `key`.
    pub fn detach(&mut self, key: WakeKey, tole: usize)
        requires
            old(self).wf(),
            old(self)@.sites.contains_key(key),
        ensures
            final(self).wf(),
            !attached(old(self)@.sites[key].fwd, tole) ==> final(self)@ == old(self)@,
            forall|at: int|
                0 <= at < old(self)@.sites[key].fwd.len() && (
                #[trigger] old(self)@.sites[key].fwd[at]).0 == tole ==> final(self)@ == old(
                    self,
                )@.set_site(
                    key,
                    SiteView {
                        fwd: old(self)@.sites[key].fwd.remove(at),
                        ..old(self)@.sites[key]
                    },
                ),
    {
        let ghost was = self.sites@[key];
        match self.sites.get_mut(key) {
            Some(site) => {
                site.fwd.detach(tole);
            },
            None => {},
        }
        proof {
            assert(Self::site_step(*old(self), *self, key));
            Self::lemma_site_step(*old(self), *self, key);
            let now = self.sites@[key];
            let s = old(self)@.sites[key];
            if !attached(s.fwd, tole) {
                assert(now.held() =~= s);
                assert(self@.sites =~= old(self)@.sites);
                assert(self@ =~= old(self)@);
            }
            assert forall|at: int| 0 <= at < s.fwd.len() && (#[trigger] s.fwd[at]).0
                == tole implies self@ == old(self)@.set_site(
                key,
                SiteView { fwd: s.fwd.remove(at), ..s },
            ) by {
                let want = SiteView { fwd: s.fwd.remove(at), ..s };
                assert(was.fwd.list()[at].0 == tole);
                assert(now.held() =~= want);
                assert(self@.sites =~= old(self)@.sites.insert(key, want));
                assert(self@ =~= old(self)@.set_site(key, want));
            }
        }
    }

    /// Takes the site of `key` away, at which nobody may wait.
    pub fn drop_site(&mut self, key: WakeKey)
        requires
            old(self).wf(),
            old(self)@.sites.contains_key(key) ==> old(self)@.sites[key].line.len() == 0,
        ensures
            final(self).wf(),
            final(self)@ == (RoomView { sites: old(self)@.sites.remove(key), ..old(self)@ }),
    {
        let ghost was = self.sites@[key];
        self.sites.remove(key);
        proof {
            if old(self).sites@.contains_key(key) {
                was.chain.lemma_members(self.tasks@);
                assert(was.held().line.len() == 0);
            }
            assert forall|k: WakeKey| #[trigger]
                self.sites@.contains_key(k) implies self.sites@[k].wf(k, self.tasks@) by {
                assert(old(self).sites@.contains_key(k));
            }
            assert forall|id: usize| #[trigger] self.tasks@.contains_key(id) implies self.homed(
                id,
            ) by {
                assert(old(self).homed(id));
                if old(self).tasks@[id].place@ == Place::Site(key) {
                    assert(was.chain.order().contains(id));
                }
            }
            assert(self@.sites =~= old(self)@.sites.remove(key));
            assert(self@ =~= (RoomView { sites: old(self)@.sites.remove(key), ..old(self)@ }));
        }
    }
}

impl RoomView {
    /// The room after the first task of the line at `key` has left it.
    pub open spec fn popped(self, key: WakeKey) -> RoomView {
        RoomView {
            sites: self.sites.insert(
                key,
                SiteView { line: self.sites[key].line.drop_first(), ..self.sites[key] },
            ),
            flying: self.flying.insert(self.sites[key].line[0]),
            ..self
        }
    }

    /// The room after the task `id` has left the line at `key`.
    pub open spec fn plucked(self, key: WakeKey, id: usize) -> RoomView {
        RoomView {
            sites: self.sites.insert(
                key,
                SiteView { line: without(self.sites[key].line, id), ..self.sites[key] },
            ),
            flying: self.flying.insert(id),
            ..self
        }
    }
}

impl Room {
    /// Nothing but the tasks that moved between teams, flight, the husks and the end
    /// differs, and the husks.
    spec fn edge_step(a: Room, b: Room) -> bool {
        &&& b.lanes == a.lanes
        &&& b.sites == a.sites
        &&& b.score == a.score
        &&& b.reasons == a.reasons
        &&& b.doomed == a.doomed
        &&& b.pending == a.pending
        &&& b.lives == a.lives
        &&& b.holders == a.holders
        &&& b.clock == a.clock
        &&& a.tasks@.dom().subset_of(b.tasks@.dom())
        &&& forall|k: usize| #[trigger]
            a.tasks@.contains_key(k) ==> b.tasks@[k] == a.tasks@[k] || (at_edge(
                a.tasks@[k].place@,
            ) && at_edge(b.tasks@[k].place@))
        &&& forall|k: usize| #[trigger]
            b.tasks@.contains_key(k) && !a.tasks@.contains_key(k) ==> at_edge(b.tasks@[k].place@)
        &&& forall|k: usize| #[trigger] b.tasks@.contains_key(k) ==> b.homed(k)
        &&& b.husks@.no_duplicates()
        &&& forall|i: int|
            0 <= i < b.husks@.len() ==> b.tasks@.contains_key(#[trigger] b.husks@[i])
                && b.tasks@[b.husks@[i]].place@ == Place::Husk && b.tasks@[b.husks@[i]].state
                == TaskState::Reaped
    }

    proof fn lemma_edge_step(a: Room, b: Room)
        requires
            a.wf(),
            Self::edge_step(a, b),
        ensures
            b.wf(),
    {
        assert forall|j: int| 0 <= j < b.lanes@.len() implies (#[trigger] b.lanes@[j]).hart == j
            && b.lanes@[j].wf(b.tasks@) by {
            let l = a.lanes@[j];
            l.ready.lemma_members(a.tasks@);
            assert(agree_on(a.tasks@, b.tasks@, l.ready.place())) by {
                assert forall|k: usize| #[trigger]
                    b.tasks@.contains_key(k) && b.tasks@[k].place@ == l.line() implies a.tasks@.contains_key(
                    k,
                ) && a.tasks@[k].place@ == l.line() by {}
            }
            l.ready.lemma_frame(a.tasks@, b.tasks@);
            assert forall|i: int| 0 <= i < l.ready.order().len() implies b.tasks@[
            #[trigger] l.ready.order()[i]].state == TaskState::Starved by {
                assert(a.tasks@.contains_key(l.ready.order()[i]));
            }
            assert forall|k: usize| #[trigger]
                b.tasks@.contains_key(k) && b.tasks@[k].place@ == l.slot() implies l.running == Some(
                k,
            ) by {
                assert(a.tasks@.contains_key(k));
            }
        }
        assert forall|k: WakeKey| #[trigger] b.sites@.contains_key(k) implies b.sites@[k].wf(
            k,
            b.tasks@,
        ) by {
            let s = a.sites@[k];
            s.chain.lemma_members(a.tasks@);
            assert(agree_on(a.tasks@, b.tasks@, s.chain.place())) by {
                assert forall|x: usize| #[trigger]
                    b.tasks@.contains_key(x) && b.tasks@[x].place@ == Place::Site(k) implies a.tasks@.contains_key(
                    x,
                ) && a.tasks@[x].place@ == Place::Site(k) by {}
            }
            s.chain.lemma_frame(a.tasks@, b.tasks@);
            assert forall|i: int| 0 <= i < s.chain.order().len() implies waits_at(
                b.tasks@[#[trigger] s.chain.order()[i]],
                k,
            ) by {
                assert(a.tasks@.contains_key(s.chain.order()[i]));
            }
        }
    }

    /// A task that founds a team stays where it is.
    pub proof fn lemma_heirs_step(a: Room, b: Room, id: usize)
        requires
            a.wf(),
            a.tasks@.contains_key(id),
            b == (Room { tasks: b.tasks, ..a }),
            b.tasks@.dom() == a.tasks@.dom(),
            forall|k: usize| #[trigger]
                b.tasks@.contains_key(k) && k != id ==> b.tasks@[k] == a.tasks@[k],
            b.tasks@[id] == (Task { heirs: b.tasks@[id].heirs, ..a.tasks@[id] }),
        ensures
            b.wf(),
    {
        assert forall|j: int| 0 <= j < b.lanes@.len() implies (#[trigger] b.lanes@[j]).hart == j
            && b.lanes@[j].wf(b.tasks@) by {
            let l = a.lanes@[j];
            l.ready.lemma_members(a.tasks@);
            assert(agree_on(a.tasks@, b.tasks@, l.ready.place()));
            l.ready.lemma_frame(a.tasks@, b.tasks@);
            assert forall|i: int| 0 <= i < l.ready.order().len() implies b.tasks@[
            #[trigger] l.ready.order()[i]].state == TaskState::Starved by {
                assert(a.tasks@.contains_key(l.ready.order()[i]));
            }
        }
        assert forall|k: WakeKey| #[trigger] b.sites@.contains_key(k) implies b.sites@[k].wf(
            k,
            b.tasks@,
        ) by {
            let s = a.sites@[k];
            s.chain.lemma_members(a.tasks@);
            assert(agree_on(a.tasks@, b.tasks@, s.chain.place()));
            s.chain.lemma_frame(a.tasks@, b.tasks@);
            assert forall|i: int| 0 <= i < s.chain.order().len() implies waits_at(
                b.tasks@[#[trigger] s.chain.order()[i]],
                k,
            ) by {
                assert(a.tasks@.contains_key(s.chain.order()[i]));
            }
        }
        assert forall|k: usize| #[trigger] b.tasks@.contains_key(k) implies b.homed(k) by {
            assert(a.homed(k));
        }
        assert forall|i: int| 0 <= i < b.husks@.len() implies b.tasks@.contains_key(
            #[trigger] b.husks@[i],
        ) && b.tasks@[b.husks@[i]].place@ == Place::Husk && b.tasks@[b.husks@[i]].state
            == TaskState::Reaped by {
            assert(a.tasks@.contains_key(a.husks@[i]));
        }
    }

    /// Takes a held task from its team; it is in flight then.
    pub fn release_held(&mut self, id: usize)
        requires
            old(self).wf(),
            old(self)@.tasks.contains_key(id),
            old(self)@.tasks[id].state == TaskState::Held,
            !old(self)@.flying.contains(id),
        ensures
            final(self).wf(),
            final(self)@ == (RoomView { flying: old(self)@.flying.insert(id), ..old(self)@ }),
    {
        let ghost before = self.tasks@;
        assert(self.homed(id));
        proof {
            self.lemma_held_place(id);
        }
        match self.tasks.get_mut(id) {
            Some(t) => {
                t.place = Ghost(Place::Flight);
            },
            None => {},
        }
        proof {
            assert(self.tasks@.dom() =~= before.dom());
            assert forall|k: usize| #[trigger] self.tasks@.contains_key(k) implies self.homed(
                k,
            ) by {
                assert(old(self).homed(k));
            }
            assert forall|i: int| 0 <= i < self.husks@.len() implies self.tasks@.contains_key(
                #[trigger] self.husks@[i],
            ) && self.tasks@[self.husks@[i]].place@ == Place::Husk
                && self.tasks@[self.husks@[i]].state == TaskState::Reaped by {
                assert(before[self.husks@[i]].place@ == Place::Husk);
            }
            assert(Self::edge_step(*old(self), *self));
            Self::lemma_edge_step(*old(self), *self);
            assert(same_bodies(before, self.tasks@));
            lemma_same_bodies(before, self.tasks@);
            assert(flying(self.tasks@) =~= flying(before).insert(id));
            assert(self@ =~= (RoomView { flying: old(self)@.flying.insert(id), ..old(self)@ }));
        }
    }

    /// A held task that is not in flight is with its team.
    proof fn lemma_held_place(self, id: usize)
        requires
            self.wf(),
            self.tasks@.contains_key(id),
            self.tasks@[id].state == TaskState::Held,
            self.tasks@[id].place@ != Place::Flight,
        ensures
            self.tasks@[id].place@ == Place::Team,
    {
        assert(self.homed(id));
        match self.tasks@[id].place@ {
            Place::Lane(h) => {
                let l = self.lanes@[h];
                l.ready.lemma_members(self.tasks@);
                assert(l.ready.order().contains(id));
                let i = choose|i: int|
                    0 <= i < l.ready.order().len() && l.ready.order()[i] == id;
                assert(self.tasks@[l.ready.order()[i]].state == TaskState::Starved);
            },
            Place::Slot(h) => {
                assert(self.lanes@[h].hart == h);
                assert(self.lanes@[h].running == Some(id));
            },
            Place::Site(k) => {
                let s = self.sites@[k];
                s.chain.lemma_members(self.tasks@);
                assert(s.chain.order().contains(id));
                let i = choose|i: int|
                    0 <= i < s.chain.order().len() && s.chain.order()[i] == id;
                assert(waits_at(self.tasks@[s.chain.order()[i]], k));
            },
            Place::Husk => {
                let i = choose|i: int| 0 <= i < self.husks@.len() && self.husks@[i] == id;
                assert(self.tasks@[self.husks@[i]].state == TaskState::Reaped);
            },
            _ => {},
        }
    }

    /// Puts a task in flight, whose last rites are done, among the husks.
    pub fn husk_push(&mut self, id: usize)
        requires
            old(self).wf(),
            old(self)@.flying.contains(id),
            old(self)@.tasks[id].state == TaskState::Reaped,
        ensures
            final(self).wf(),
            final(self)@ == (RoomView {
                flying: old(self)@.flying.remove(id),
                husks: old(self)@.husks.push(id),
                ..old(self)@
            }),
    {
        let ghost before = self.tasks@;
        let ghost was = self.husks@;
        assert(self.homed(id));
        match self.tasks.get_mut(id) {
            Some(t) => {
                t.place = Ghost(Place::Husk);
            },
            None => {},
        }
        self.husks.push_back(id);
        proof {
            assert(self.tasks@.dom() =~= before.dom());
            assert forall|i: int| 0 <= i < was.len() implies #[trigger] was[i] != id
                && self.husks@[i] == was[i] by {
                assert(before[was[i]].place@ == Place::Husk);
            }
            assert forall|k: usize| #[trigger] self.tasks@.contains_key(k) implies self.homed(
                k,
            ) by {
                assert(old(self).homed(k));
                if k == id {
                    assert(self.husks@[was.len() as int] == id);
                } else if before[k].place@ == Place::Husk {
                    let i = choose|i: int| 0 <= i < was.len() && was[i] == k;
                    assert(self.husks@[i] == k);
                }
            }
            assert forall|i: int| 0 <= i < self.husks@.len() implies self.tasks@.contains_key(
                #[trigger] self.husks@[i],
            ) && self.tasks@[self.husks@[i]].place@ == Place::Husk
                && self.tasks@[self.husks@[i]].state == TaskState::Reaped by {
                if i < was.len() {
                    assert(self.husks@[i] == was[i]);
                    assert(before[was[i]].place@ == Place::Husk);
                }
            }
            assert(Self::edge_step(*old(self), *self));
            Self::lemma_edge_step(*old(self), *self);
            assert(same_bodies(before, self.tasks@));
            lemma_same_bodies(before, self.tasks@);
            assert(flying(self.tasks@) =~= flying(before).remove(id));
            assert(self@ =~= (RoomView {
                flying: old(self)@.flying.remove(id),
                husks: old(self)@.husks.push(id),
                ..old(self)@
            }));
        }
    }

    /// Takes the first husk and marks it as cleared away.
    pub fn husk_pop(&mut self) -> (id: Option<usize>)
        requires
            old(self).wf(),
        ensures
            final(self).wf(),
            id is None <==> old(self)@.husks.len() == 0,
            id is None ==> final(self)@ == old(self)@,
            id matches Some(id) ==> {
                &&& id == old(self)@.husks[0]
                &&& old(self)@.tasks.contains_key(id)
                &&& old(self)@.tasks[id].state == TaskState::Reaped
                &&& !old(self)@.flying.contains(id)
                &&& final(self)@ == (RoomView {
                    husks: old(self)@.husks.drop_first(),
                    tasks: old(self)@.tasks.insert(
                        id,
                        (TaskBody { buried: true, ..old(self)@.tasks[id] }),
                    ),
                    ..old(self)@
                })
            },
    {
        let ghost before = self.tasks@;
        let ghost was = self.husks@;
        match self.husks.pop_front() {
            None => {
                assert(self.husks@ =~= was);
                assert(self@ =~= old(self)@);
                None
            },
            Some(id) => {
                assert(was[0] == id);
                assert(self.husks@ =~= was.drop_first());
                match self.tasks.get_mut(id) {
                    Some(t) => {
                        t.place = Ghost(Place::Gone);
                        t.buried = true;
                    },
                    None => {},
                }
                proof {
                    assert(self.tasks@.dom() =~= before.dom());
                    assert forall|k: usize| #[trigger] self.tasks@.contains_key(
                        k,
                    ) implies self.homed(k) by {
                        assert(old(self).homed(k));
                        if k != id && before[k].place@ == Place::Husk {
                            let i = choose|i: int| 0 <= i < was.len() && was[i] == k;
                            assert(self.husks@[i - 1] == k);
                        }
                    }
                    assert forall|i: int| 0 <= i < self.husks@.len() implies self.tasks@.contains_key(
                        #[trigger] self.husks@[i],
                    ) && self.tasks@[self.husks@[i]].place@ == Place::Husk
                        && self.tasks@[self.husks@[i]].state == TaskState::Reaped by {
                        assert(self.husks@[i] == was[i + 1]);
                        assert(was[i + 1] != was[0]);
                        assert(before[was[i + 1]].place@ == Place::Husk);
                    }
                    assert forall|i: int, j: int|
                        0 <= i < self.husks@.len() && 0 <= j < self.husks@.len() && i
                            != j implies self.husks@[i] != self.husks@[j] by {
                        assert(was[i + 1] != was[j + 1]);
                    }
                    assert(Self::edge_step(*old(self), *self));
                    Self::lemma_edge_step(*old(self), *self);
                    let want = RoomView {
                        husks: old(self)@.husks.drop_first(),
                        tasks: old(self)@.tasks.insert(
                            id,
                            (TaskBody { buried: true, ..old(self)@.tasks[id] }),
                        ),
                        ..old(self)@
                    };
                    assert(bodies(self.tasks@) =~= want.tasks);
                    assert(flying(self.tasks@) =~= flying(before));
                    assert(self@ =~= want);
                }
                Some(id)
            },
        }
    }

    /// Enters a new task into the roster; its team holds it.
    pub fn enter(&mut self, ident: TaskIdent)
        requires
            old(self).wf(),
            !old(self)@.tasks.contains_key(ident.id),
        ensures
            final(self).wf(),
            final(self)@ == (RoomView {
                tasks: old(self)@.tasks.insert(ident.id, new_body(ident)),
                ..old(self)@
            }),
    {
        let ghost before = self.tasks@;
        self.tasks.insert(ident.id, Task::new(ident));
        proof {
            assert forall|k: usize| #[trigger] self.tasks@.contains_key(k) implies self.homed(
                k,
            ) by {
                if k != ident.id {
                    assert(old(self).homed(k));
                }
            }
            assert forall|i: int| 0 <= i < self.husks@.len() implies self.tasks@.contains_key(
                #[trigger] self.husks@[i],
            ) && self.tasks@[self.husks@[i]].place@ == Place::Husk
                && self.tasks@[self.husks@[i]].state == TaskState::Reaped by {
                assert(before.contains_key(self.husks@[i]));
            }
            assert(Self::edge_step(*old(self), *self));
            Self::lemma_edge_step(*old(self), *self);
            assert(self.tasks@[ident.id].body() =~= new_body(ident));
            assert(bodies(self.tasks@) =~= bodies(before).insert(ident.id, new_body(ident)));
            assert(flying(self.tasks@) =~= flying(before));
            assert(self@ =~= (RoomView {
                tasks: old(self)@.tasks.insert(ident.id, new_body(ident)),
                ..old(self)@
            }));
        }
    }
}

/// A task that has been made and not yet let go.
pub open spec fn new_body(ident: TaskIdent) -> TaskBody {
    TaskBody {
        ident,
        words: FrameWords { kernel_sp: 0, tp: 0 },
        state: TaskState::Held,
        heirs: Seq::<usize>::empty(),
        buried: false,
    }
}

/// Whether `p` is neither on a hart nor at a site.
pub open spec fn at_edge(p: Place) -> bool {
    p is Flight || p is Team || p is Husk || p is Gone
}

/// A site does not notice tasks that move between other places.
proof fn lemma_site_frame(
    site: Site,
    key: WakeKey,
    a: Map<usize, Task>,
    b: Map<usize, Task>,
    p: Place,
    q: Place,
)
    requires
        site.wf(key, a),
        moved_within(a, b, p, q),
        !among(Place::Site(key), p, q),
    ensures
        site.wf(key, b),
{
    site.chain.lemma_members(a);
    assert(agree_on(a, b, site.chain.place())) by {
        assert forall|k: usize| #[trigger]
            b.contains_key(k) && b[k].place@ == Place::Site(key) implies a.contains_key(k)
            && a[k].place@ == Place::Site(key) by {
            assert(a.contains_key(k));
        }
    }
    site.chain.lemma_frame(a, b);
    assert forall|i: int| 0 <= i < site.chain.order().len() implies waits_at(
        b[#[trigger] site.chain.order()[i]],
        key,
    ) by {
        assert(a.contains_key(site.chain.order()[i]));
    }
}

} // verus!
