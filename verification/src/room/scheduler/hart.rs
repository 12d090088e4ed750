//! The scheduler of one hart: a running slot and a ready queue.
//!
//! A task that is picked gets a full quantum. [`Scheduler::advance`] spends it tick by
//! tick and rotates when it is gone; [`Scheduler::starve`] rotates at once. The slot is
//! filled by [`Scheduler::seat`] alone, and only when it is empty.
use vstd::prelude::*;
use crate::room::scheduler::ident::Badge;
use crate::table::Table;
use crate::unit::chain::{Chain, same_bodies, without};
use crate::unit::task::{FrameWords, Place, Task, TaskBody, TaskIdent, TaskState};

verus! {

/// The full quantum of a task, in timer ticks.
pub const QUANTUM_TICKS: u32 = 8;

/// The scheduler of one hart.
pub struct Scheduler {
    /// The hart.
    pub hart: usize,
    /// The edge of the hart's trap stack.
    pub edge: usize,
    /// The address of the hart's own data.
    pub anchor: usize,
    /// The task that runs.
    pub running: Option<usize>,
    /// The tasks that are ready to.
    pub ready: Chain,
    /// Who runs here, or did last.
    pub badge: Badge,
}

/// What a hart's scheduler holds.
#[verifier::ext_equal]
pub struct Lane {
    pub hart: usize,
    pub edge: usize,
    pub anchor: usize,
    pub running: Option<usize>,
    pub queue: Seq<usize>,
    pub badge: Badge,
}

impl Lane {
    /// What a task looks like once it has been made ready to run on this hart.
    pub open spec fn prepared(self, b: TaskBody) -> TaskBody {
        TaskBody {
            state: TaskState::Running { ticks_left: QUANTUM_TICKS },
            words: FrameWords {
                kernel_sp: self.edge,
                tp: if b.ident.kernel {
                    self.anchor
                } else {
                    b.words.tp
                },
            },
            ..b
        }
    }
}

/// Whether the tasks that moved did so between `p`, `q` and flight only: every task that
/// was or is anywhere else is the same as before.
pub open spec fn moved_within(
    a: Map<usize, Task>,
    b: Map<usize, Task>,
    p: Place,
    q: Place,
) -> bool {
    &&& a.dom() == b.dom()
    &&& forall|k: usize| #[trigger]
        a.contains_key(k) ==> b[k] == a[k] || (among(a[k].place@, p, q) && among(
            b[k].place@,
            p,
            q,
        ))
    &&& forall|k: usize| #[trigger]
        a.contains_key(k) ==> b[k].ident == a[k].ident && b[k].buried == a[k].buried
}

/// Whether `x` is `p`, `q` or flight.
pub open spec fn among(x: Place, p: Place, q: Place) -> bool {
    x == p || x == q || x == Place::Flight
}

/// `tasks` with the body of one task replaced.
pub open spec fn bodies(tasks: Map<usize, Task>) -> Map<usize, TaskBody> {
    tasks.map_values(|t: Task| t.body())
}

/// The tasks that are in flight.
pub open spec fn flying(tasks: Map<usize, Task>) -> Set<usize> {
    tasks.dom().filter(|k: usize| tasks[k].place@ == Place::Flight)
}

impl Scheduler {
    /// What the scheduler holds.
    pub open spec fn lane(self) -> Lane {
        Lane {
            hart: self.hart,
            edge: self.edge,
            anchor: self.anchor,
            running: self.running,
            queue: self.ready.order(),
            badge: self.badge,
        }
    }

    /// Whether the queue and the slot agree with `tasks`: all in the queue are starved,
    /// the one in the slot runs with something left of its quantum, and no other task
    /// has either for its place.
    pub open spec fn wf(self, tasks: Map<usize, Task>) -> bool {
        &&& self.ready.place() == Place::Lane(self.hart as int)
        &&& self.ready.wf(tasks)
        &&& forall|i: int|
            0 <= i < self.ready.order().len() ==> tasks[#[trigger] self.ready.order()[i]].state
                == TaskState::Starved
        &&& self.running matches Some(id) ==> {
            &&& tasks.contains_key(id)
            &&& tasks[id].place@ == Place::Slot(self.hart as int)
            &&& tasks[id].state is Running
            &&& tasks[id].state->ticks_left >= 1
        }
        &&& forall|k: usize| #[trigger]
            tasks.contains_key(k) && tasks[k].place@ == Place::Slot(self.hart as int)
                ==> self.running == Some(k)
    }

    /// The places of this hart.
    pub open spec fn slot(self) -> Place {
        Place::Slot(self.hart as int)
    }

    /// The place of this hart's ready tasks.
    pub open spec fn line(self) -> Place {
        Place::Lane(self.hart as int)
    }

    /// A scheduler with an empty slot and an empty queue.
    pub fn new(hart: usize, edge: usize, anchor: usize) -> (s: Scheduler)
        ensures
            s.lane() == (Lane {
                hart,
                edge,
                anchor,
                running: None,
                queue: Seq::<usize>::empty(),
                badge: Badge::Blank,
            }),
            s.ready.place() == Place::Lane(hart as int),
            forall|tasks: Map<usize, Task>|
                (forall|k: usize| #[trigger]
                    tasks.contains_key(k) ==> tasks[k].place@ != Place::Lane(hart as int)
                        && tasks[k].place@ != Place::Slot(hart as int)) ==> #[trigger] s.wf(tasks),
    {
        let s: Scheduler = Scheduler {
            hart,
            edge,
            anchor,
            running: None,
            ready: Chain::new(Ghost(Place::Lane(hart as int))),
            badge: Badge::new(),
        };
        assert(s.lane().queue =~= Seq::<usize>::empty());
        s
    }

    /// Whether nobody is ready.
    pub fn starved_is_empty(&self, tasks: &Table<usize, Task>) -> (yes: bool)
        requires
            self.wf(tasks@),
        ensures
            yes == (self.lane().queue.len() == 0),
    {
        self.ready.is_empty(Ghost(tasks@))
    }

    /// Puts a starved task in flight at the end of the queue.
    pub fn starved_push(&mut self, tasks: &mut Table<usize, Task>, id: usize)
        requires
            old(self).wf(old(tasks)@),
            flying(old(tasks)@).contains(id),
            old(tasks)@[id].state == TaskState::Starved,
        ensures
            final(self).wf(final(tasks)@),
            final(self).lane() == (Lane {
                queue: old(self).lane().queue.push(id),
                ..old(self).lane()
            }),
            bodies(final(tasks)@) == bodies(old(tasks)@),
            flying(final(tasks)@) == flying(old(tasks)@).remove(id),
            moved_within(old(tasks)@, final(tasks)@, old(self).line(), old(self).slot()),
    {
        let ghost before = tasks@;
        proof {
            self.ready.lemma_members(before);
        }
        self.ready.push_back(tasks, id);
        proof {
            lemma_same_bodies(before, tasks@);
            assert(flying(tasks@) =~= flying(before).remove(id));
            assert forall|i: int| 0 <= i < self.ready.order().len() implies tasks@[
            #[trigger] self.ready.order()[i]].state == TaskState::Starved by {
                let k = self.ready.order()[i];
                if i < old(self).ready.order().len() {
                    assert(k == old(self).ready.order()[i]);
                }
                assert(before.contains_key(k));
                assert(tasks@[k].body() == before[k].body());
            }
        }
    }

    /// Takes the first ready task; it is in flight then.
    pub fn starved_pop(&mut self, tasks: &mut Table<usize, Task>) -> (id: Option<usize>)
        requires
            old(self).wf(old(tasks)@),
        ensures
            final(self).wf(final(tasks)@),
            bodies(final(tasks)@) == bodies(old(tasks)@),
            moved_within(old(tasks)@, final(tasks)@, old(self).line(), old(self).slot()),
            id is None <==> old(self).lane().queue.len() == 0,
            id is None ==> final(self).lane() == old(self).lane() && final(tasks)@ == old(tasks)@,
            id matches Some(id) ==> {
                &&& id == old(self).lane().queue[0]
                &&& final(self).lane() == (Lane {
                    queue: old(self).lane().queue.drop_first(),
                    ..old(self).lane()
                })
                &&& old(tasks)@.contains_key(id)
                &&& old(tasks)@[id].state == TaskState::Starved
                &&& flying(final(tasks)@) == flying(old(tasks)@).insert(id)
            },
    {
        let ghost before = tasks@;
        let id: Option<usize> = self.ready.pop_front(tasks);
        proof {
            if id is Some {
                lemma_same_bodies(before, tasks@);
                assert(flying(tasks@) =~= flying(before).insert(id->0));
                assert forall|i: int| 0 <= i < self.ready.order().len() implies tasks@[
                #[trigger] self.ready.order()[i]].state == TaskState::Starved by {
                    let k = self.ready.order()[i];
                    assert(k == old(self).ready.order()[i + 1]);
                    old(self).ready.lemma_members(before);
                    assert(before.contains_key(k));
                    assert(tasks@[k].body() == before[k].body());
                }
            }
        }
        id
    }

    /// Takes `id` out of the queue, wherever in it it stands; it is in flight then.
    /// `false` where it is not in the queue.
    pub fn starved_remove(&mut self, tasks: &mut Table<usize, Task>, id: usize) -> (found: bool)
        requires
            old(self).wf(old(tasks)@),
        ensures
            final(self).wf(final(tasks)@),
            bodies(final(tasks)@) == bodies(old(tasks)@),
            moved_within(old(tasks)@, final(tasks)@, old(self).line(), old(self).slot()),
            found == old(self).lane().queue.contains(id),
            !found ==> final(self).lane() == old(self).lane() && final(tasks)@ == old(tasks)@,
            found ==> {
                &&& final(self).lane() == (Lane {
                    queue: without(old(self).lane().queue, id),
                    ..old(self).lane()
                })
                &&& old(tasks)@.contains_key(id)
                &&& old(tasks)@[id].state == TaskState::Starved
                &&& flying(final(tasks)@) == flying(old(tasks)@).insert(id)
            },
    {
        let ghost before = tasks@;
        let found: bool = self.ready.remove(tasks, id);
        proof {
            old(self).ready.lemma_members(before);
            if found {
                lemma_same_bodies(before, tasks@);
                assert(flying(tasks@) =~= flying(before).insert(id));
                self.ready.lemma_members(tasks@);
                assert forall|i: int| 0 <= i < self.ready.order().len() implies tasks@[
                #[trigger] self.ready.order()[i]].state == TaskState::Starved by {
                    let k = self.ready.order()[i];
                    assert(self.ready.order().contains(k));
                    assert(before.contains_key(k));
                    assert(tasks@[k].body() == before[k].body());
                    assert(old(self).ready.order().contains(k));
                    let j = choose|j: int|
                        0 <= j < old(self).ready.order().len() && old(self).ready.order()[j] == k;
                    assert(before[old(self).ready.order()[j]].state == TaskState::Starved);
                }
                let j = choose|j: int|
                    0 <= j < old(self).ready.order().len() && old(self).ready.order()[j] == id;
                assert(before[old(self).ready.order()[j]].state == TaskState::Starved);
            }
        }
        found
    }
}

impl Scheduler {
    /// A scheduler does not notice tasks that move between other places.
    pub proof fn lemma_frame(
        self,
        a: Map<usize, Task>,
        b: Map<usize, Task>,
        p: Place,
        q: Place,
    )
        requires
            self.wf(a),
            moved_within(a, b, p, q),
            !among(self.line(), p, q),
            !among(self.slot(), p, q),
        ensures
            self.wf(b),
    {
        self.ready.lemma_members(a);
        assert(crate::unit::chain::agree_on(a, b, self.ready.place())) by {
            assert forall|k: usize| #[trigger]
                a.contains_key(k) && a[k].place@ == self.line() implies b.contains_key(k)
                && b[k].place@ == self.line() && b[k].link == a[k].link by {}
            assert forall|k: usize| #[trigger]
                b.contains_key(k) && b[k].place@ == self.line() implies a.contains_key(k)
                && a[k].place@ == self.line() by {
                assert(a.contains_key(k));
            }
        }
        self.ready.lemma_frame(a, b);
        assert forall|i: int| 0 <= i < self.ready.order().len() implies b[
        #[trigger] self.ready.order()[i]].state == TaskState::Starved by {
            assert(a.contains_key(self.ready.order()[i]));
        }
        assert forall|k: usize| #[trigger]
            b.contains_key(k) && b[k].place@ == self.slot() implies self.running == Some(k) by {
            assert(a.contains_key(k));
        }
    }

    /// Takes every ready task out of the queue, in order; they are in flight then.
    pub fn starved_clear(&mut self, tasks: &mut Table<usize, Task>) -> (gone: Vec<usize>)
        requires
            old(self).wf(old(tasks)@),
        ensures
            final(self).wf(final(tasks)@),
            bodies(final(tasks)@) == bodies(old(tasks)@),
            moved_within(old(tasks)@, final(tasks)@, old(self).line(), old(self).slot()),
            gone@ == old(self).lane().queue,
            final(self).lane() == (Lane { queue: Seq::<usize>::empty(), ..old(self).lane() }),
            flying(final(tasks)@) == flying(old(tasks)@).union(old(self).lane().queue.to_set()),
    {
        let ghost all = self.lane().queue;
        let mut gone: Vec<usize> = Vec::new();
        assert(all.skip(0) =~= all);
        assert(flying(tasks@) =~= flying(old(tasks)@).union(gone@.to_set()));
        loop
            invariant
                self.wf(tasks@),
                bodies(tasks@) == bodies(old(tasks)@),
                moved_within(old(tasks)@, tasks@, old(self).line(), old(self).slot()),
                self.lane() == (Lane { queue: all.skip(gone@.len() as int), ..old(self).lane() }),
                gone@.len() <= all.len(),
                gone@ == all.take(gone@.len() as int),
                flying(tasks@) == flying(old(tasks)@).union(gone@.to_set()),
            ensures
                self.lane().queue.len() == 0,
            decreases all.len() - gone@.len(),
        {
            let ghost n = gone@.len() as int;
            let ghost here = gone@;
            let ghost mid = tasks@;
            match self.starved_pop(tasks) {
                None => {
                    break;
                },
                Some(id) => {
                    gone.push(id);
                    proof {
                        assert(all.skip(n).drop_first() =~= all.skip(n + 1));
                        assert(all.take(n + 1) =~= all.take(n).push(all[n]));
                        assert(gone@.to_set() =~= here.to_set().insert(id)) by {
                            lemma_push_set(here, id);
                        }
                        assert(flying(tasks@) =~= flying(old(tasks)@).union(gone@.to_set()));
                        lemma_moved_trans(
                            old(tasks)@,
                            mid,
                            tasks@,
                            old(self).line(),
                            old(self).slot(),
                        );
                    }
                },
            }
        }
        proof {
            assert(all.take(all.len() as int) =~= all);
            assert(self.lane().queue =~= Seq::<usize>::empty());
        }
        gone
    }

    /// Puts a starved task in flight at the end of the queue: the one door for work
    /// that comes from elsewhere.
    pub fn push(&mut self, tasks: &mut Table<usize, Task>, id: usize)
        requires
            old(self).wf(old(tasks)@),
            flying(old(tasks)@).contains(id),
            old(tasks)@[id].state == TaskState::Starved,
        ensures
            final(self).wf(final(tasks)@),
            final(self).lane() == (Lane {
                queue: old(self).lane().queue.push(id),
                ..old(self).lane()
            }),
            bodies(final(tasks)@) == bodies(old(tasks)@),
            flying(final(tasks)@) == flying(old(tasks)@).remove(id),
            moved_within(old(tasks)@, final(tasks)@, old(self).line(), old(self).slot()),
    {
        self.starved_push(tasks, id);
    }

    /// Takes the first ready task.
    pub fn pull(&mut self, tasks: &mut Table<usize, Task>) -> (id: Option<usize>)
        requires
            old(self).wf(old(tasks)@),
        ensures
            final(self).wf(final(tasks)@),
            bodies(final(tasks)@) == bodies(old(tasks)@),
            moved_within(old(tasks)@, final(tasks)@, old(self).line(), old(self).slot()),
            id is None <==> old(self).lane().queue.len() == 0,
            id is None ==> final(self).lane() == old(self).lane() && final(tasks)@ == old(tasks)@,
            id matches Some(id) ==> {
                &&& id == old(self).lane().queue[0]
                &&& final(self).lane() == (Lane {
                    queue: old(self).lane().queue.drop_first(),
                    ..old(self).lane()
                })
                &&& old(tasks)@.contains_key(id)
                &&& old(tasks)@[id].state == TaskState::Starved
                &&& flying(final(tasks)@) == flying(old(tasks)@).insert(id)
            },
    {
        self.starved_pop(tasks)
    }

    /// Readies a starved task in flight to run here: a full quantum, this hart's trap
    /// stack, and this hart's anchor where the task lives in the kernel's own space.
    fn prepare(&self, tasks: &mut Table<usize, Task>, id: usize)
        requires
            self.wf(old(tasks)@),
            flying(old(tasks)@).contains(id),
            old(tasks)@[id].state == TaskState::Starved,
        ensures
            self.wf(final(tasks)@),
            bodies(final(tasks)@) == bodies(old(tasks)@).insert(
                id,
                self.lane().prepared(bodies(old(tasks)@)[id]),
            ),
            final(tasks)@[id].place@ == Place::Flight,
            final(tasks)@[id].state == (TaskState::Running { ticks_left: QUANTUM_TICKS }),
            flying(final(tasks)@) == flying(old(tasks)@),
            moved_within(old(tasks)@, final(tasks)@, Place::Flight, Place::Flight),
    {
        let ghost before = tasks@;
        match tasks.get_mut(id) {
            Some(t) => {
                t.state = TaskState::Running { ticks_left: QUANTUM_TICKS };
                t.words.kernel_sp = self.edge;
                if t.ident.kernel {
                    t.words.tp = self.anchor;
                }
            },
            None => {},
        }
        proof {
            assert(tasks@.dom() =~= before.dom());
            assert(bodies(tasks@) =~= bodies(before).insert(
                id,
                self.lane().prepared(bodies(before)[id]),
            ));
            assert(flying(tasks@) =~= flying(before));
            self.lemma_frame(before, tasks@, Place::Flight, Place::Flight);
        }
    }

    /// Puts a starved task in flight into the empty slot. Gives the frame to resume.
    pub fn seat(&mut self, tasks: &mut Table<usize, Task>, id: usize) -> (pa: usize)
        requires
            old(self).wf(old(tasks)@),
            old(self).running is None,
            flying(old(tasks)@).contains(id),
            old(tasks)@[id].state == TaskState::Starved,
        ensures
            final(self).wf(final(tasks)@),
            pa == old(tasks)@[id].ident.frame,
            final(self).lane() == (Lane {
                running: Some(id),
                badge: Badge::Live(old(tasks)@[id].ident),
                ..old(self).lane()
            }),
            bodies(final(tasks)@) == bodies(old(tasks)@).insert(
                id,
                old(self).lane().prepared(bodies(old(tasks)@)[id]),
            ),
            flying(final(tasks)@) == flying(old(tasks)@).remove(id),
            moved_within(old(tasks)@, final(tasks)@, old(self).line(), old(self).slot()),
    {
        let ghost before = tasks@;
        self.prepare(tasks, id);
        let ghost mid = tasks@;
        let mut pa: usize = 0;
        assert(bodies(mid)[id].ident == before[id].ident);
        assert(mid[id].body() == bodies(mid)[id]);
        match tasks.get_mut(id) {
            Some(t) => {
                t.place = Ghost(self.slot());
                pa = t.ident.frame;
                self.badge.seat(t.ident);
            },
            None => {},
        }
        proof {
            assert(tasks@.dom() =~= before.dom());
            assert(same_bodies(mid, tasks@));
            lemma_same_bodies(mid, tasks@);
            assert(flying(tasks@) =~= flying(before).remove(id));
            old(self).ready.lemma_members(mid);
            assert(crate::unit::chain::agree_on(mid, tasks@, self.ready.place()));
            self.ready.lemma_frame(mid, tasks@);
        }
        self.running = Some(id);
        pa
    }

    /// Forgets whom the hart ran last.
    pub fn clear_slot(&mut self)
        ensures
            final(self).lane() == (Lane { badge: Badge::Blank, ..old(self).lane() }),
            *final(self) == (Scheduler { badge: Badge::Blank, ..*old(self) }),
    {
        self.badge = Badge::new();
    }

    /// The task that runs here.
    pub fn running_task(&self) -> (id: Option<usize>)
        ensures
            id == self.lane().running,
    {
        self.running
    }

    /// Empties the slot; the task that ran is in flight then.
    fn vacate(&mut self, tasks: &mut Table<usize, Task>) -> (id: usize)
        requires
            old(self).wf(old(tasks)@),
            old(self).running is Some,
        ensures
            final(self).wf(final(tasks)@),
            id == old(self).running->0,
            final(self).lane() == (Lane { running: None, ..old(self).lane() }),
            old(tasks)@.contains_key(id),
            bodies(final(tasks)@) == bodies(old(tasks)@),
            flying(final(tasks)@) == flying(old(tasks)@).insert(id),
            moved_within(old(tasks)@, final(tasks)@, old(self).line(), old(self).slot()),
    {
        let ghost before = tasks@;
        let id: usize = self.running.unwrap();
        match tasks.get_mut(id) {
            Some(t) => {
                t.place = Ghost(Place::Flight);
            },
            None => {},
        }
        self.running = None;
        proof {
            assert(tasks@.dom() =~= before.dom());
            assert(same_bodies(before, tasks@));
            lemma_same_bodies(before, tasks@);
            assert(flying(tasks@) =~= flying(before).insert(id));
            old(self).ready.lemma_members(before);
            assert(crate::unit::chain::agree_on(before, tasks@, self.ready.place()));
            self.ready.lemma_frame(before, tasks@);
        }
        id
    }

    /// The running task leaves and the first ready one takes its place; with none
    /// ready the slot stays empty and the badge keeps two numbers. Gives the task that
    /// left, in flight, and the next frame.
    pub fn swap(&mut self, tasks: &mut Table<usize, Task>) -> (r: (usize, Option<usize>))
        requires
            old(self).wf(old(tasks)@),
            old(self).running is Some,
        ensures
            final(self).wf(final(tasks)@),
            old(tasks)@.contains_key(r.0),
            (final(self).lane(), bodies(final(tasks)@)) == swapped(
                old(self).lane(),
                bodies(old(tasks)@),
            ),
            r.0 == old(self).running->0,
            r.1 == (if old(self).lane().queue.len() == 0 {
                None
            } else {
                Some(bodies(old(tasks)@)[old(self).lane().queue[0]].ident.frame)
            }),
            flying(final(tasks)@) == flying(old(tasks)@).insert(r.0),
            moved_within(old(tasks)@, final(tasks)@, old(self).line(), old(self).slot()),
    {
        let ghost t0 = tasks@;
        let id: usize = self.vacate(tasks);
        let ghost t1 = tasks@;
        match self.starved_pop(tasks) {
            Some(next) => {
                let ghost t2 = tasks@;
                assert(t2[next].state == bodies(t2)[next].state);
                assert(t1[next].state == bodies(t1)[next].state);
                let pa: usize = self.seat(tasks, next);
                proof {
                    let (l, p) = (old(self).line(), old(self).slot());
                    lemma_moved_trans(t0, t1, t2, l, p);
                    lemma_moved_trans(t0, t2, tasks@, l, p);
                    assert(id != next) by {
                        old(self).ready.lemma_members(t0);
                        assert(old(self).ready.order()[0] == next);
                    }
                    assert(!flying(t1).contains(next)) by {
                        old(self).ready.lemma_members(t0);
                        assert(t0[next].place@ == old(self).line());
                        assert(flying(t1) == flying(t0).insert(id));
                    }
                    assert(flying(tasks@) =~= flying(t0).insert(id));
                    assert(bodies(t2)[next].ident == t2[next].ident);
                    assert(bodies(t0)[next] == bodies(t2)[next]);
                }
                (id, Some(pa))
            },
            None => {
                let mut ident: Option<TaskIdent> = None;
                match tasks.get(id) {
                    Some(t) => {
                        ident = Some(t.ident);
                    },
                    None => {},
                }
                if let Some(who) = ident {
                    self.badge.shed(who);
                }
                assert(bodies(t0)[id].ident == bodies(t1)[id].ident);
                assert(bodies(t1)[id].ident == t1[id].ident);
                (id, None)
            },
        }
    }
}

impl Scheduler {
    /// Sets the state of a task in flight.
    fn transform(&self, tasks: &mut Table<usize, Task>, id: usize, state: TaskState)
        requires
            self.wf(old(tasks)@),
            flying(old(tasks)@).contains(id),
        ensures
            self.wf(final(tasks)@),
            bodies(final(tasks)@) == bodies(old(tasks)@).insert(
                id,
                (TaskBody { state, ..bodies(old(tasks)@)[id] }),
            ),
            final(tasks)@[id].state == state,
            flying(final(tasks)@) == flying(old(tasks)@),
            moved_within(old(tasks)@, final(tasks)@, Place::Flight, Place::Flight),
    {
        let ghost before = tasks@;
        match tasks.get_mut(id) {
            Some(t) => {
                t.state = state;
            },
            None => {},
        }
        proof {
            assert(tasks@.dom() =~= before.dom());
            assert(bodies(tasks@) =~= bodies(before).insert(
                id,
                (TaskBody { state, ..bodies(before)[id] }),
            ));
            assert(flying(tasks@) =~= flying(before));
            self.lemma_frame(before, tasks@, Place::Flight, Place::Flight);
        }
    }

    /// The running task `cur`, in flight, goes to the end of the queue, and the first
    /// of the queue comes out.
    fn rotate(&mut self, tasks: &mut Table<usize, Task>, cur: usize) -> (next: usize)
        requires
            old(self).wf(old(tasks)@),
            flying(old(tasks)@).contains(cur),
        ensures
            final(self).wf(final(tasks)@),
            next == old(self).lane().queue.push(cur)[0],
            final(self).lane() == (Lane {
                queue: old(self).lane().queue.push(cur).drop_first(),
                ..old(self).lane()
            }),
            bodies(final(tasks)@) == bodies(old(tasks)@).insert(
                cur,
                (TaskBody { state: TaskState::Starved, ..bodies(old(tasks)@)[cur] }),
            ),
            flying(final(tasks)@) == flying(old(tasks)@).remove(cur).insert(next),
            final(tasks)@.contains_key(next),
            final(tasks)@[next].state == TaskState::Starved,
            moved_within(old(tasks)@, final(tasks)@, old(self).line(), old(self).slot()),
    {
        let ghost t0 = tasks@;
        self.transform(tasks, cur, TaskState::Starved);
        let ghost t1 = tasks@;
        self.starved_push(tasks, cur);
        let ghost t2 = tasks@;
        let next: Option<usize> = self.starved_pop(tasks);
        proof {
            let (l, p) = (old(self).line(), old(self).slot());
            assert(moved_within(t0, t1, l, p));
            lemma_moved_trans(t0, t1, t2, l, p);
            lemma_moved_trans(t0, t2, tasks@, l, p);
            assert(tasks@[next->0].state == bodies(tasks@)[next->0].state);
            assert(t2[next->0].state == bodies(t2)[next->0].state);
        }
        next.unwrap()
    }

    /// Gives the hart away: the running task goes to the end of the queue, whatever is
    /// left of its quantum, and the first one runs. With nobody ready it runs on.
    pub fn starve(&mut self, tasks: &mut Table<usize, Task>) -> (pa: usize)
        requires
            old(self).wf(old(tasks)@),
            old(self).running is Some,
        ensures
            final(self).wf(final(tasks)@),
            (final(self).lane(), bodies(final(tasks)@)) == starved(
                old(self).lane(),
                bodies(old(tasks)@),
            ),
            final(self).running is Some,
            pa == bodies(final(tasks)@)[final(self).running->0].ident.frame,
            flying(final(tasks)@) == flying(old(tasks)@),
            moved_within(old(tasks)@, final(tasks)@, old(self).line(), old(self).slot()),
    {
        let ghost t0 = tasks@;
        if self.starved_is_empty(tasks) {
            let cur: usize = self.running.unwrap();
            return frame_pa(tasks, cur);
        }
        let cur: usize = self.vacate(tasks);
        let ghost t1 = tasks@;
        let next: usize = self.rotate(tasks, cur);
        let ghost t2 = tasks@;
        let pa: usize = self.seat(tasks, next);
        proof {
            let (l, p) = (old(self).line(), old(self).slot());
            lemma_moved_trans(t0, t1, t2, l, p);
            lemma_moved_trans(t0, t2, tasks@, l, p);
            let q = old(self).lane().queue;
            old(self).ready.lemma_members(t0);
            assert(q.push(cur)[0] == q[0]);
            assert(q.push(cur).drop_first() =~= q.drop_first().push(cur));
            assert(next != cur);
            assert(t0[next].place@ == l);
            assert(!flying(t0).contains(next));
            assert(!flying(t0).contains(cur));
            assert(flying(tasks@) =~= flying(t0));
            assert(bodies(t2)[next].ident == t2[next].ident);
            assert(bodies(t2)[next] == bodies(t0)[next]);
        }
        pa
    }

    /// One timer tick: the running task spends a tick of its quantum, or, with the
    /// last one spent and somebody ready, makes way. `None` where nobody runs.
    pub fn advance(&mut self, tasks: &mut Table<usize, Task>) -> (pa: Option<usize>)
        requires
            old(self).wf(old(tasks)@),
        ensures
            final(self).wf(final(tasks)@),
            (final(self).lane(), bodies(final(tasks)@)) == advanced(
                old(self).lane(),
                bodies(old(tasks)@),
            ),
            pa is None <==> old(self).running is None,
            pa is Some ==> final(self).running is Some && pa->0 == bodies(
                final(tasks)@,
            )[final(self).running->0].ident.frame,
            flying(final(tasks)@) == flying(old(tasks)@),
            moved_within(old(tasks)@, final(tasks)@, old(self).line(), old(self).slot()),
    {
        let ghost t0 = tasks@;
        match self.running {
            None => None,
            Some(cur) => {
                let mut ticks_left: u32 = 1;
                match tasks.get(cur) {
                    Some(t) => {
                        if let TaskState::Running { ticks_left: left } = t.state {
                            ticks_left = left;
                        }
                    },
                    None => {},
                }
                assert(t0[cur].state == TaskState::Running { ticks_left });
                assert(bodies(t0)[cur].state == t0[cur].state);
                if ticks_left > 1 || self.starved_is_empty(tasks) {
                    if ticks_left > 1 {
                        match tasks.get_mut(cur) {
                            Some(t) => {
                                t.state = TaskState::Running { ticks_left: ticks_left - 1 };
                            },
                            None => {},
                        }
                        proof {
                            assert(tasks@.dom() =~= t0.dom());
                            assert(bodies(tasks@) =~= bodies(t0).insert(
                                cur,
                                (TaskBody {
                                    state: TaskState::Running {
                                        ticks_left: (ticks_left - 1) as u32,
                                    },
                                    ..bodies(t0)[cur]
                                }),
                            ));
                            assert(flying(tasks@) =~= flying(t0));
                            self.ready.lemma_members(t0);
                            assert(crate::unit::chain::agree_on(
                                t0,
                                tasks@,
                                self.ready.place(),
                            ));
                            self.ready.lemma_frame(t0, tasks@);
                        }
                    }
                    return Some(frame_pa(tasks, cur));
                }
                Some(self.starve(tasks))
            },
        }
    }
}

/// The trap frame of a task.
pub fn frame_pa(tasks: &Table<usize, Task>, id: usize) -> (pa: usize)
    requires
        tasks@.contains_key(id),
    ensures
        pa == tasks@[id].ident.frame,
        pa == bodies(tasks@)[id].ident.frame,
{
    match tasks.get(id) {
        Some(t) => t.ident.frame,
        None => 0,
    }
}

/// What [`Scheduler::starve`] does to a hart and to the bodies of the tasks.
pub open spec fn starved(l: Lane, b: Map<usize, TaskBody>) -> (Lane, Map<usize, TaskBody>) {
    if l.queue.len() == 0 {
        (l, b)
    } else {
        let cur = l.running->0;
        let next = l.queue[0];
        (
            Lane {
                running: Some(next),
                queue: l.queue.drop_first().push(cur),
                badge: Badge::Live(b[next].ident),
                ..l
            },
            b.insert(cur, (TaskBody { state: TaskState::Starved, ..b[cur] })).insert(
                next,
                l.prepared(b[next]),
            ),
        )
    }
}

/// What [`Scheduler::advance`] does to a hart and to the bodies of the tasks.
pub open spec fn advanced(l: Lane, b: Map<usize, TaskBody>) -> (Lane, Map<usize, TaskBody>) {
    match l.running {
        None => (l, b),
        Some(cur) => {
            let left = b[cur].state->ticks_left;
            if left > 1 {
                (
                    l,
                    b.insert(
                        cur,
                        (TaskBody {
                            state: TaskState::Running { ticks_left: (left - 1) as u32 },
                            ..b[cur]
                        }),
                    ),
                )
            } else {
                starved(l, b)
            }
        },
    }
}

/// What [`Scheduler::swap`] does to a hart and to the bodies of the tasks.
pub open spec fn swapped(l: Lane, b: Map<usize, TaskBody>) -> (Lane, Map<usize, TaskBody>) {
    if l.queue.len() == 0 {
        (Lane { running: None, badge: Badge::left_by(b[l.running->0].ident), ..l }, b)
    } else {
        let next = l.queue[0];
        (
            Lane {
                running: Some(next),
                queue: l.queue.drop_first(),
                badge: Badge::Live(b[next].ident),
                ..l
            },
            b.insert(next, l.prepared(b[next])),
        )
    }
}

/// Moving within the same places twice is moving within them once.
pub proof fn lemma_moved_trans(
    a: Map<usize, Task>,
    b: Map<usize, Task>,
    c: Map<usize, Task>,
    p: Place,
    q: Place,
)
    requires
        moved_within(a, b, p, q),
        moved_within(b, c, p, q),
    ensures
        moved_within(a, c, p, q),
{
    assert forall|k: usize| #[trigger] a.contains_key(k) implies c[k] == a[k] || (among(
        a[k].place@,
        p,
        q,
    ) && among(c[k].place@, p, q)) by {
        assert(b.contains_key(k));
    }
    assert forall|k: usize| #[trigger] a.contains_key(k) implies c[k].ident == a[k].ident
        && c[k].buried == a[k].buried by {
        assert(b.contains_key(k));
    }
}

/// Pushing an element puts it into the set of elements.
pub proof fn lemma_push_set(s: Seq<usize>, x: usize)
    ensures
        s.push(x).to_set() == s.to_set().insert(x),
{
    assert(s.push(x).to_set() =~= s.to_set().insert(x)) by {
        assert forall|y: usize| s.push(x).to_set().contains(y) <==> s.to_set().insert(x).contains(
            y,
        ) by {
            if s.to_set().contains(y) {
                let i = choose|i: int| 0 <= i < s.len() && s[i] == y;
                assert(s.push(x)[i] == y);
            }
            if y == x {
                assert(s.push(x)[s.len() as int] == x);
            }
        }
    }
}

/// Tables that differ in links and places have the same bodies.
pub proof fn lemma_same_bodies(a: Map<usize, Task>, b: Map<usize, Task>)
    requires
        same_bodies(a, b),
    ensures
        bodies(a) == bodies(b),
{
    assert(bodies(a) =~= bodies(b)) by {
        assert forall|k: usize| #[trigger] bodies(a).contains_key(k) implies bodies(a)[k] == bodies(
            b,
        )[k] by {
            assert(a.contains_key(k));
        }
    }
}

} // verus!
