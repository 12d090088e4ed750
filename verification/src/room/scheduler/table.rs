//! The roster and the looks over all harts.
use vstd::prelude::*;
use crate::room::{Room, RoomView};
use crate::room::new_body;
use crate::room::conductor;
use crate::room::conductor::Score;
use crate::room::messenger::doom::exists_now;
use crate::room::messenger::wait::holder::lemma_same_floor;
use crate::room::messenger::wait::site::{SiteView, Sites, WakeKey};
use crate::room::scheduler::hart::Lane;
use crate::room::scheduler::hart::{bodies, flying};
use crate::table::Table;
use crate::unit::chain::{Chain, without};
use crate::unit::task::{Place, Task, TaskBody, TaskIdent, TaskState};
use std::collections::VecDeque;

verus! {

/// The room after the ready task `id` has left the queue of hart `h`.
pub open spec fn unqueued(v: RoomView, h: int, id: usize) -> RoomView {
    RoomView {
        lanes: v.lanes.update(h, Lane { queue: without(v.lanes[h].queue, id), ..v.lanes[h] }),
        flying: v.flying.insert(id),
        ..v
    }
}

/// Whether `id` is in the ready queue of hart `h`.
pub open spec fn ready_on(v: RoomView, h: int, id: usize) -> bool {
    0 <= h < v.lanes.len() && v.lanes[h].queue.contains(id)
}

/// Whether `id` runs on hart `h`.
pub open spec fn runs_on(v: RoomView, h: int, id: usize) -> bool {
    0 <= h < v.lanes.len() && v.lanes[h].running == Some(id)
}

/// Takes `id` out of whichever ready queue it is in; it is in flight then. `false` where
/// it is in none.
pub fn remove_from_starved(room: &mut Room, id: usize) -> (found: bool)
    requires
        old(room).wf(),
    ensures
        final(room).wf(),
        !found ==> final(room)@ == old(room)@ && forall|h: int| !ready_on(old(room)@, h, id),
        found ==> exists|h: int| #[trigger]
            ready_on(old(room)@, h, id) && final(room)@ == unqueued(old(room)@, h, id),
        found ==> old(room)@.tasks.contains_key(id) && old(room)@.tasks[id].state
            == TaskState::Starved && !old(room)@.flying.contains(id),
{
    let ghost v = room@;
    let mut h: usize = 0;
    while h < room.lanes.len()
        invariant
            room.wf(),
            room@ == v,
            v == old(room)@,
            h <= room.lanes@.len(),
            forall|j: int| 0 <= j < h ==> !ready_on(v, j, id),
        decreases room.lanes@.len() - h,
    {
        if room.lane_remove(h, id) {
            assert(ready_on(v, h as int, id));
            assert(room@ == unqueued(v, h as int, id));
            return true;
        }
        assert(room@.lanes.len() == v.lanes.len() && room@.lanes.len() == room.lanes@.len());
        h += 1;
    }
    assert(v.lanes.len() == room.lanes@.len());
    false
}

/// The hart on which `id` runs.
pub fn running_hart(room: &Room, id: usize) -> (hart: Option<usize>)
    ensures
        hart matches Some(h) ==> runs_on(room@, h as int, id) && h < room.lanes@.len(),
        hart is None ==> forall|h: int| !runs_on(room@, h, id),
        hart == hart_of(room@, id),
{
    let mut h: usize = 0;
    while h < room.lanes.len()
        invariant
            h <= room.lanes@.len(),
            forall|j: int| 0 <= j < h ==> !runs_on(room@, j, id),
        decreases room.lanes@.len() - h,
    {
        if let Some(cur) = room.lanes[h].running {
            if cur == id {
                assert(runs_on(room@, h as int, id));
                proof {
                    let c = choose|c: int|
                        #[trigger] runs_on(room@, c, id) && forall|j: int|
                            0 <= j < c ==> !#[trigger] runs_on(room@, j, id);
                    assert(runs_on(room@, h as int, id) && forall|j: int|
                        0 <= j < h ==> !runs_on(room@, j, id));
                    assert(c == h);
                }
                return Some(h);
            }
        }
        h += 1;
    }
    None
}

/// The first hart on which `id` runs.
pub open spec fn hart_of(v: RoomView, id: usize) -> Option<usize> {
    if exists|h: int| runs_on(v, h, id) {
        Some(
            (choose|h: int|
                #[trigger] runs_on(v, h, id) && forall|j: int|
                    0 <= j < h ==> !#[trigger] runs_on(v, j, id)) as usize,
        )
    } else {
        None
    }
}

/// What is answered where the allocator had room for one more task (`ok`) or not.
pub fn reserved(ok: bool) -> (r: Result<(), ()>)
    ensures
        r is Ok <==> ok,
{
    if ok {
        Ok(())
    } else {
        Err(())
    }
}

/// Makes room in the roster for one more task. Where there is none, nothing can be made
/// yet and nothing has to be undone. The answer is [`reserved`] of what the allocator says.
pub fn try_reserve_roster(room: &mut Room) -> (r: Result<(), ()>)
    requires
        old(room).wf(),
    ensures
        final(room).wf(),
        final(room)@ == old(room)@,
{
    let ok: bool = room.tasks.try_reserve();
    proof {
        assert forall|id: usize| #[trigger] room.tasks@.contains_key(id) implies room.homed(
            id,
        ) by {
            assert(old(room).homed(id));
        }
        assert(room@ =~= old(room)@);
    }
    reserved(ok)
}

/// Enters a new task into the roster, held by its team, and counts it.
pub fn enlist(room: &mut Room, ident: TaskIdent)
    requires
        old(room).wf(),
        !old(room)@.tasks.contains_key(ident.id),
    ensures
        final(room).wf(),
        final(room)@ == (RoomView {
            tasks: old(room)@.tasks.insert(ident.id, new_body(ident)),
            score: Score {
                pushed: old(room)@.score.pushed.wrapping_add(1),
                ..old(room)@.score
            },
            ..old(room)@
        }),
{
    room.enter(ident);
    let ghost here = *room;
    conductor::push(&mut room.score);
    proof {
        lemma_same_floor(here, *room);
        assert(room@ =~= (RoomView { score: room@.score, ..here@ }));
    }
}

/// Looks a task up: `None` where it was never entered, otherwise whether it still exists.
pub fn muster(room: &Room, id: usize) -> (found: Option<bool>)
    ensures
        found == (if room@.tasks.contains_key(id) {
            Some(!room@.tasks[id].buried)
        } else {
            None
        }),
{
    match room.tasks.get(id) {
        None => None,
        Some(t) => {
            assert(room@.tasks[id] == t.body());
            Some(!t.buried)
        },
    }
}

/// The room after `id` was put last into the queue of hart `me` and the hart that the
/// conductor picks was interrupted if it waits.
pub open spec fn launched(v: RoomView, me: usize, id: usize) -> RoomView {
    let h = v.pick(me) as int;
    let l = v.lanes[me as int];
    RoomView {
        lanes: v.lanes.update(me as int, Lane { queue: l.queue.push(id), ..l }),
        flying: v.flying.remove(id),
        score: Score { cursor: v.score.cursor.wrapping_add(1), ..v.score },
        outbox: if v.score.waits(h) {
            v.outbox.push(conductor::nudge_call(h))
        } else {
            v.outbox
        },
        ..v
    }
}

/// Puts a task that was just let go into the queue of hart `me`, and wakes one sleeping
/// hart.
pub fn launch(room: &mut Room, me: usize, id: usize)
    requires
        old(room).wf(),
        me < old(room).lanes@.len(),
        old(room)@.flying.contains(id),
        old(room)@.tasks[id].state == TaskState::Starved,
    ensures
        final(room).wf(),
        final(room)@ == launched(old(room)@, me, id),
{
    let ghost v = room@;
    room.lane_push(me, id);
    let ghost here = *room;
    assert(room@.lanes.len() == room.lanes@.len());
    let n: usize = room.lanes.len();
    let h: usize = conductor::pick(&mut room.score, me, n);
    proof {
        assert(conductor::picked(v.score, me, n, conductor::pick_of(v.score, me, n)));
        conductor::lemma_picked_unique(v.score, me, n, h, v.pick(me));
        assert(v.score.waits(h as int) ==> h < n);
        crate::bits::Bitmap::lemma_range(v.score.waiting);
    }
    if conductor::waiting(&room.score, h) {
        room.outbox.push(conductor::nudge(h));
    }
    proof {
        lemma_same_floor(here, *room);
        assert(room@ =~= launched(v, me, id));
    }
}

/// Puts every task of the roster into `list`, each once. Nobody is listed where there was
/// no memory for it.
pub fn roster_with(room: &Room, list: Option<Vec<usize>>) -> (ids: Vec<usize>)
    requires
        list matches Some(l) ==> l@.len() == 0,
    ensures
        ids@.no_duplicates(),
        list is None ==> ids@.len() == 0,
        list is Some ==> forall|k: usize| #[trigger]
            ids@.contains(k) <==> room@.tasks.contains_key(k),
{
    let mut ids: Vec<usize> = match list {
        Some(l) => l,
        None => {
            return Vec::new();
        },
    };
    let n: usize = room.tasks.len();
    let ghost order = room.tasks.order();
    while ids.len() < n
        invariant
            n == order.len(),
            order == room.tasks.order(),
            ids@.len() <= n,
            ids@ == order.take(ids@.len() as int),
        decreases n - ids@.len(),
    {
        ids.push(room.tasks.key_at(ids.len()));
        assert(ids@ =~= order.take(ids@.len() as int));
    }
    proof {
        assert(ids@ =~= order);
        assert forall|k: usize| #[trigger] ids@.contains(k) <==> room@.tasks.contains_key(k) by {
            assert(order.contains(k) <==> room.tasks@.contains_key(k));
        }
    }
    ids
}

/// Every task of the roster, as [`roster_with`] lists them.
pub fn roster(room: &Room) -> (ids: Vec<usize>)
    ensures
        ids@.no_duplicates(),
        ids@.len() == 0 || forall|k: usize| #[trigger]
            ids@.contains(k) <==> room@.tasks.contains_key(k),
{
    let mut list: Vec<usize> = Vec::new();
    if list.try_reserve(room.tasks.len()).is_err() {
        return roster_with(room, None);
    }
    roster_with(room, Some(list))
}

/// The tasks that still exist.
pub open spec fn survivors(v: RoomView) -> Set<usize> {
    v.tasks.dom().filter(|k: usize| exists_now(v, k))
}

/// The number of tasks in the roster, and of those that still exist.
pub fn roster_live(room: &Room) -> (c: (usize, usize))
    ensures
        c.0 == room@.tasks.dom().len(),
        c.1 == survivors(room@).len(),
{
    let (total, ids, more) = count_live(room, 0);
    (total, more)
}

/// How many still exist beyond the first eight that were found, and those.
pub fn roster_live_ids(room: &Room) -> (r: (usize, Vec<usize>))
    ensures
        r.1@.no_duplicates(),
        forall|i: int| 0 <= i < r.1@.len() ==> exists_now(room@, #[trigger] r.1@[i]),
        r.0 + r.1@.len() == survivors(room@).len(),
        r.0 > 0 ==> r.1@.len() == 8,
        r.1@.len() <= 8,
{
    let (_total, ids, more) = count_live(room, 8);
    (more, ids)
}

/// Counts the tasks; lists up to `cap` that still exist and counts the rest.
fn count_live(room: &Room, cap: usize) -> (r: (usize, Vec<usize>, usize))
    ensures
        r.0 == room@.tasks.dom().len(),
        r.1@.no_duplicates(),
        forall|i: int| 0 <= i < r.1@.len() ==> exists_now(room@, #[trigger] r.1@[i]),
        r.2 + r.1@.len() == survivors(room@).len(),
        r.2 > 0 ==> r.1@.len() == cap,
        r.1@.len() <= cap,
{
    let n: usize = room.tasks.len();
    let ghost order = room.tasks.order();
    assert(room@.tasks.dom() =~= room.tasks@.dom());
    let mut ids: Vec<usize> = Vec::new();
    let mut more: usize = 0;
    let mut i: usize = 0;
    let ghost mut seen: Set<usize> = Set::empty();
    while i < n
        invariant
            i <= n,
            n == order.len(),
            order == room.tasks.order(),
            order.no_duplicates(),
            room@.tasks.dom() == room.tasks@.dom(),
            forall|k: usize| order.contains(k) <==> room.tasks@.contains_key(k),
            seen.finite(),
            forall|k: usize| #[trigger]
                seen.contains(k) <==> order.take(i as int).contains(k) && exists_now(room@, k),
            seen.len() == more + ids@.len(),
            more + ids@.len() <= i,
            ids@.no_duplicates(),
            forall|j: int| 0 <= j < ids@.len() ==> seen.contains(#[trigger] ids@[j]),
            more > 0 ==> ids@.len() == cap,
            ids@.len() <= cap,
        decreases n - i,
    {
        let id: usize = room.tasks.key_at(i);
        let ghost was = ids@;
        proof {
            assert(order.take(i + 1) =~= order.take(i as int).push(id));
            assert forall|k: usize| #[trigger] order.take(i + 1).contains(k) <==> order.take(
                i as int,
            ).contains(k) || k == id by {
                if order.take(i as int).contains(k) {
                    let j = choose|j: int|
                        0 <= j < order.take(i as int).len() && order.take(i as int)[j] == k;
                    assert(order.take(i + 1)[j] == k);
                }
                if k == id {
                    assert(order.take(i + 1)[i as int] == id);
                }
            }
            assert(!order.take(i as int).contains(id)) by {
                if order.take(i as int).contains(id) {
                    let j = choose|j: int|
                        0 <= j < order.take(i as int).len() && order.take(i as int)[j] == id;
                    assert(order[j] == order[i as int]);
                }
            }
        }
        let mut alive: bool = false;
        match room.tasks.get(id) {
            Some(t) => {
                assert(room@.tasks[id] == t.body());
                alive = !t.buried;
            },
            None => {},
        }
        if alive {
            proof {
                assert(!seen.contains(id));
                seen = seen.insert(id);
            }
            if ids.len() < cap {
                ids.push(id);
                assert forall|a: int, b: int| 0 <= a < b < ids@.len() implies ids@[a] != ids@[b] by {
                    if b == was.len() {
                        assert(ids@[a] == was[a]);
                    }
                }
            } else {
                more += 1;
            }
        }
        i += 1;
    }
    proof {
        assert(order.take(i as int) =~= order);
        assert(seen =~= survivors(room@));
    }
    (n, ids, more)
}

/// The task bodies that stay when the room is torn down: those that run.
pub open spec fn running_only(v: RoomView) -> Map<usize, TaskBody> {
    v.tasks.restrict(v.tasks.dom().filter(|k: usize| exists|h: int| runs_on(v, h, k)))
}

/// The room after it was torn down: no queue, site, ticket, deadline, husk or note is left, and no
/// task but those that run.
pub open spec fn ripped(v: RoomView) -> RoomView {
    RoomView {
        lanes: v.lanes.map_values(|l: Lane| Lane { queue: Seq::<usize>::empty(), ..l }),
        tasks: running_only(v),
        flying: Set::empty(),
        sites: Map::<WakeKey, SiteView>::empty(),
        holders: Map::<u64, (WakeKey, usize)>::empty(),
        clock: Map::<u64, u64>::empty(),
        husks: Seq::<usize>::empty(),
        doomed: Map::<usize, usize>::empty(),
        pending: 0,
        ..v
    }
}

/// Tears the room down. The running slots stay as they are: a hart may still stand on a
/// stack in one of them.
pub fn rip(room: &mut Room)
    requires
        old(room).wf(),
    ensures
        final(room).wf(),
        final(room)@ == ripped(old(room)@),
{
    let ghost v = room@;
    let ghost r0 = *room;
    let mut kept: Table<usize, Task> = Table::new();
    let mut h: usize = 0;
    while h < room.lanes.len()
        invariant
            r0.wf(),
            v == r0@,
            h <= room.lanes@.len(),
            *room == (Room { tasks: room.tasks, lanes: room.lanes, ..r0 }),
            room.lanes@.len() == r0.lanes@.len(),
            forall|j: int|
                0 <= j < r0.lanes@.len() ==> (#[trigger] room.lanes@[j]).lane() == (Lane {
                    queue: if j < h {
                        Seq::<usize>::empty()
                    } else {
                        r0.lanes@[j].lane().queue
                    },
                    ..r0.lanes@[j].lane()
                }),
            forall|j: int|
                0 <= j < h ==> (#[trigger] room.lanes@[j]).ready.place() == Place::Lane(j)
                    && clean(room.lanes@[j].ready, j),
            forall|k: usize| #[trigger]
                kept@.contains_key(k) <==> exists|j: int| 0 <= j < h && runs_on(v, j, k),
            forall|k: usize| #[trigger] kept@.contains_key(k) ==> kept@[k] == r0.tasks@[k],
            forall|k: usize| #[trigger]
                room.tasks@.contains_key(k) <==> r0.tasks@.contains_key(k) && !kept@.contains_key(
                    k,
                ),
            forall|k: usize| #[trigger]
                room.tasks@.contains_key(k) ==> room.tasks@[k] == r0.tasks@[k],
        decreases room.lanes@.len() - h,
    {
        let ghost was = kept@;
        let running: Option<usize> = room.lanes[h].running_task();
        assert(room.lanes@[h as int].lane().running == r0.lanes@[h as int].lane().running);
        assert(v.lanes[h as int] == r0.lanes@[h as int].lane());
        match running {
            None => {},
            Some(id) => {
                proof {
                    assert(r0.lanes@[h as int].hart == h);
                    assert(r0.tasks@[id].place@ == Place::Slot(h as int));
                    assert(!was.contains_key(id)) by {
                        if was.contains_key(id) {
                            let j = choose|j: int| 0 <= j < h && runs_on(v, j, id);
                            assert(v.lanes[j] == r0.lanes@[j].lane());
                            assert(r0.lanes@[j].hart == j);
                            assert(r0.tasks@[id].place@ == Place::Slot(j));
                        }
                    }
                }
                match room.tasks.remove(id) {
                    Some(t) => {
                        kept.insert(id, t);
                    },
                    None => {},
                }
            },
        }
        room.lanes[h].ready = Chain::new(Ghost(Place::Lane(h as int)));
        proof {
            assert(room.lanes@[h as int].lane().queue =~= Seq::<usize>::empty());
            assert forall|k: usize| #[trigger] kept@.contains_key(k) <==> exists|j: int|
                0 <= j < h + 1 && runs_on(v, j, k) by {
                if kept@.contains_key(k) {
                    if was.contains_key(k) {
                        let j = choose|j: int| 0 <= j < h && runs_on(v, j, k);
                        assert(0 <= j < h + 1 && runs_on(v, j, k));
                    } else {
                        assert(runs_on(v, h as int, k));
                    }
                }
                if exists|j: int| 0 <= j < h + 1 && runs_on(v, j, k) {
                    let j = choose|j: int| 0 <= j < h + 1 && runs_on(v, j, k);
                    if j < h {
                        assert(was.contains_key(k));
                    }
                }
            }
        }
        h += 1;
    }
    room.tasks = kept;
    room.sites = Sites::new();
    room.husks = VecDeque::new();
    room.holders.clear();
    room.clock.clear();
    room.doomed.clear();
    room.pending = 0;
    proof {
        assert forall|k: usize| #[trigger] room.tasks@.contains_key(k) implies exists|j: int|
            runs_on(v, j, k) && r0.tasks@[k].place@ == Place::Slot(j) && r0.tasks@.contains_key(
                k,
            ) by {
            let j = choose|j: int| 0 <= j < h && runs_on(v, j, k);
            assert(v.lanes[j] == r0.lanes@[j].lane());
            assert(r0.lanes@[j].hart == j);
            assert(runs_on(v, j, k));
        }
        assert forall|j: int| 0 <= j < room.lanes@.len() implies (#[trigger] room.lanes@[j]).hart
            == j && room.lanes@[j].wf(room.tasks@) by {
            assert(room.lanes@[j].lane().hart == r0.lanes@[j].lane().hart);
            assert(r0.lanes@[j].hart == j);
            assert(room.lanes@[j].ready.wf(room.tasks@));
            assert(room.lanes@[j].running == r0.lanes@[j].running) by {
                assert(room.lanes@[j].lane().running == r0.lanes@[j].lane().running);
            }
            assert(room.lanes@[j].ready.order() == room.lanes@[j].lane().queue);
            if room.lanes@[j].running is Some {
                let id = room.lanes@[j].running->0;
                assert(v.lanes[j] == r0.lanes@[j].lane());
                assert(runs_on(v, j, id));
                assert(room.tasks@.contains_key(id));
            }
        }
        assert forall|id: usize| #[trigger] room.tasks@.contains_key(id) implies room.homed(
            id,
        ) by {
            assert(r0.homed(id));
        }
        assert(bodies(room.tasks@) =~= running_only(v)) by {
            assert forall|k: usize| bodies(room.tasks@).contains_key(k) <==> running_only(
                v,
            ).contains_key(k) by {
                if exists|j: int| runs_on(v, j, k) {
                    let j = choose|j: int| runs_on(v, j, k);
                    assert(v.lanes[j] == r0.lanes@[j].lane());
                    assert(0 <= j < h && runs_on(v, j, k));
                    assert(r0.tasks@.contains_key(k));
                }
            }
        }
        assert(flying(room.tasks@) =~= Set::<usize>::empty());
        assert(room@.lanes =~= ripped(v).lanes);
        assert(room@.sites =~= Map::<WakeKey, SiteView>::empty());
        assert(room@.husks =~= Seq::<usize>::empty());
        assert(room@ =~= ripped(v));
    }
}

/// Whether `c` is well-formed wherever no task has the queue of hart `h` for its place.
spec fn clean(c: Chain, h: int) -> bool {
    forall|tasks: Map<usize, Task>|
        (forall|k: usize| #[trigger] tasks.contains_key(k) ==> tasks[k].place@ != Place::Lane(h))
            ==> #[trigger] c.wf(tasks)
}

} // verus!
