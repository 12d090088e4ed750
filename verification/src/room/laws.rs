//! What holds of every room.
use vstd::prelude::*;
use crate::room::messenger::doom::{
    above, exists_now, founded, lineage, lineages, living, members, suspended,
};
use crate::bits::MAX_HART_SLOTS;
use crate::room::messenger::handoff::{GateError, Handoff};
use crate::room::messenger::reap::{Leaving, Remains};
use crate::room::messenger::reap::{departed, leaving_of, settled_by};
use crate::room::messenger::reason_slot;
use crate::room::messenger::wait::holder::{holder_of, voided};
use crate::room::messenger::wait::site::WakeKey;
use crate::room::messenger::wait::{
    beacon_at, beacon_taken, block_contract, claim, cleared, deadline_of, gone_to_wait, knocked,
    knocked_all, lemma_released_all, off, pruned, sited, someone_waits, stays, toles_at, touched, wiped,
    woken,
};
use crate::room::scheduler::Tock;
use crate::room::{Room, RoomView};
use crate::unit::chain::lemma_without;
use crate::unit::task::{Place, TaskState};

verus! {

/// A place at which a task can be.
pub enum Spot {
    /// On this hart.
    Slot(int),
    /// At this place of this hart's queue.
    Queue(int, int),
    /// At this place of the line at this key.
    Line(WakeKey, int),
    /// At this place among the husks.
    Husk(int),
    /// On the way from one place to the next.
    Flight,
}

/// Whether the task `id` is at `spot`.
pub open spec fn is_at(v: RoomView, spot: Spot, id: usize) -> bool {
    match spot {
        Spot::Slot(h) => 0 <= h < v.lanes.len() && v.lanes[h].running == Some(id),
        Spot::Queue(h, i) => 0 <= h < v.lanes.len() && 0 <= i < v.lanes[h].queue.len()
            && v.lanes[h].queue[i] == id,
        Spot::Line(k, i) => v.sites.contains_key(k) && 0 <= i < v.sites[k].line.len()
            && v.sites[k].line[i] == id,
        Spot::Husk(i) => 0 <= i < v.husks.len() && v.husks[i] == id,
        Spot::Flight => v.flying.contains(id),
    }
}

/// The container that a spot belongs to.
spec fn container(spot: Spot) -> Place {
    match spot {
        Spot::Slot(h) => Place::Slot(h),
        Spot::Queue(h, _) => Place::Lane(h),
        Spot::Line(k, _) => Place::Site(k),
        Spot::Husk(_) => Place::Husk,
        Spot::Flight => Place::Flight,
    }
}

proof fn lemma_spot(room: Room, spot: Spot, id: usize)
    requires
        room.wf(),
        is_at(room@, spot, id),
    ensures
        room.tasks@.contains_key(id),
        room.tasks@[id].place@ == container(spot),
{
    match spot {
        Spot::Slot(h) => {
            assert(room@.lanes[h] == room.lanes@[h].lane());
            assert(room.lanes@[h].wf(room.tasks@) && room.lanes@[h].hart == h);
        },
        Spot::Queue(h, i) => {
            assert(room@.lanes[h] == room.lanes@[h].lane());
            assert(room.lanes@[h].wf(room.tasks@) && room.lanes@[h].hart == h);
            room.lanes@[h].ready.lemma_members(room.tasks@);
        },
        Spot::Line(k, i) => {
            assert(room.sites@.contains_key(k));
            assert(room@.sites[k] == room.sites@[k].held());
            room.sites@[k].chain.lemma_members(room.tasks@);
        },
        Spot::Husk(i) => {
            assert(room.tasks@.contains_key(room.husks@[i]));
        },
        Spot::Flight => {},
    }
}

/// A task is at one place at a time: on one hart, or once in one queue, or once in one line,
/// or once among the husks, or on the way.
pub proof fn law_one_place(room: Room, a: Spot, b: Spot, id: usize)
    requires
        room.wf(),
        is_at(room@, a, id),
        is_at(room@, b, id),
    ensures
        a == b,
{
    lemma_spot(room, a, id);
    lemma_spot(room, b, id);
    match (a, b) {
        (Spot::Queue(h, i), Spot::Queue(g, j)) => {
            assert(room@.lanes[h] == room.lanes@[h].lane());
            assert(room.lanes@[h].wf(room.tasks@));
            room.lanes@[h].ready.lemma_members(room.tasks@);
            assert(room@.lanes[h].queue.no_duplicates());
        },
        (Spot::Line(k, i), Spot::Line(l, j)) => {
            assert(room@.sites[k] == room.sites@[k].held());
            room.sites@[k].chain.lemma_members(room.tasks@);
            assert(room@.sites[k].line.no_duplicates());
        },
        (Spot::Husk(i), Spot::Husk(j)) => {
            assert(room@.husks.no_duplicates());
        },
        _ => {},
    }
}

/// Whether the state suits the spot.
pub open spec fn suits(state: TaskState, spot: Spot) -> bool {
    match spot {
        Spot::Slot(_) => state is Running && state->ticks_left >= 1,
        Spot::Queue(_, _) => state == TaskState::Starved,
        Spot::Line(k, _) => state is Blocked && state->key == k,
        Spot::Husk(_) => state == TaskState::Reaped,
        Spot::Flight => true,
    }
}

/// Where a task is and what its state says agree: who is on a hart runs, who is in a queue is
/// ready, who is in a line waits for that key, who is a husk is over.
pub proof fn law_state_suits_place(room: Room, spot: Spot, id: usize)
    requires
        room.wf(),
        is_at(room@, spot, id),
    ensures
        room@.tasks.contains_key(id),
        suits(room@.tasks[id].state, spot),
{
    lemma_spot(room, spot, id);
    assert(room@.tasks[id] == room.tasks@[id].body());
    match spot {
        Spot::Slot(h) => {
            assert(room@.lanes[h] == room.lanes@[h].lane());
            assert(room.lanes@[h].wf(room.tasks@));
        },
        Spot::Queue(h, i) => {
            assert(room@.lanes[h] == room.lanes@[h].lane());
            assert(room.lanes@[h].wf(room.tasks@));
        },
        Spot::Line(k, i) => {
            assert(room@.sites[k] == room.sites@[k].held());
        },
        Spot::Husk(i) => {
            assert(room.tasks@.contains_key(room.husks@[i]));
        },
        Spot::Flight => {},
    }
}

/// A task that runs, is ready or waits can be found: it is at a spot, unless it is on the way.
pub proof fn law_nobody_is_lost(room: Room, id: usize)
    requires
        room.wf(),
        room@.tasks.contains_key(id),
        !room@.flying.contains(id),
        room@.tasks[id].state is Running || room@.tasks[id].state is Starved
            || room@.tasks[id].state is Blocked,
    ensures
        exists|spot: Spot| #[trigger] is_at(room@, spot, id),
{
    assert(room.homed(id));
    let t = room.tasks@[id];
    assert(room@.tasks[id] == t.body());
    match t.place@ {
        Place::Slot(h) => {
            assert(room@.lanes[h] == room.lanes@[h].lane());
            assert(room.lanes@[h].wf(room.tasks@) && room.lanes@[h].hart == h);
            assert(is_at(room@, Spot::Slot(h), id));
        },
        Place::Lane(h) => {
            assert(room@.lanes[h] == room.lanes@[h].lane());
            assert(room.lanes@[h].wf(room.tasks@) && room.lanes@[h].hart == h);
            room.lanes@[h].ready.lemma_members(room.tasks@);
            let q = room.lanes@[h].ready.order();
            assert(q.contains(id));
            let i = choose|i: int| 0 <= i < q.len() && q[i] == id;
            assert(is_at(room@, Spot::Queue(h, i), id));
        },
        Place::Site(k) => {
            assert(room@.sites[k] == room.sites@[k].held());
            room.sites@[k].chain.lemma_members(room.tasks@);
            let q = room.sites@[k].chain.order();
            assert(q.contains(id));
            let i = choose|i: int| 0 <= i < q.len() && q[i] == id;
            assert(is_at(room@, Spot::Line(k, i), id));
        },
        Place::Husk => {
            let i = choose|i: int| 0 <= i < room.husks@.len() && room.husks@[i] == id;
            assert(is_at(room@, Spot::Husk(i), id));
        },
        _ => {},
    }
}

/// What has been tidied up needs no tidying up.
pub proof fn law_prune_once(v: RoomView, key: WakeKey)
    ensures
        pruned(pruned(v, key), key) == pruned(v, key),
{
}

/// Whether `key` is none of the toles of `fwd`.
pub open spec fn apart(fwd: Seq<(usize, usize)>, key: WakeKey) -> bool {
    forall|i: int| 0 <= i < fwd.len() ==> key != (WakeKey::Tole { id: (#[trigger] fwd[i]).0 })
}

/// A site that was tidied up is there for a reason: somebody waits at it, or a beacon or a tole
/// is at it and the life it depends on has not ended.
pub proof fn law_site_has_a_reason(v: RoomView, key: WakeKey)
    ensures
        pruned(v, key).sites.contains_key(key) <==> v.sites.contains_key(key) && (
        v.sites[key].line.len() > 0 || (v.alive(v.sites[key].life) && (v.sites[key].pend
            || v.sites[key].fwd.len() > 0))),
{
}

/// A ticket is taken back once: the second time it names nobody.
pub proof fn law_void_once(v: RoomView, ticket: u64)
    ensures
        holder_of(voided(v, ticket), ticket) is None,
        voided(voided(v, ticket), ticket) == voided(v, ticket),
        !voided(v, ticket).clock.contains_key(ticket),
{
    assert(voided(voided(v, ticket), ticket).holders =~= voided(v, ticket).holders);
    assert(voided(voided(v, ticket), ticket).clock =~= voided(v, ticket).clock);
}

proof fn lemma_knocks_leave(
    v: RoomView,
    me: usize,
    fwd: Seq<(usize, usize)>,
    hads: Seq<bool>,
    key: WakeKey,
)
    requires
        apart(fwd, key),
    ensures
        knocked_all(v, me, fwd, hads).sites.contains_key(key) == v.sites.contains_key(key),
        v.sites.contains_key(key) ==> knocked_all(v, me, fwd, hads).sites[key] == v.sites[key],
        knocked_all(v, me, fwd, hads).lives == v.lives,
    decreases fwd.len(),
{
    if fwd.len() > 0 {
        let k = WakeKey::Tole { id: fwd[0].0 };
        let w = knocked(v, me, k, fwd[0].1, hads[0]);
        assert(w.sites.contains_key(key) == v.sites.contains_key(key));
        assert(v.sites.contains_key(key) ==> w.sites[key] == v.sites[key]);
        assert(apart(fwd.drop_first(), key)) by {
            assert forall|i: int| 0 <= i < fwd.drop_first().len() implies key != (WakeKey::Tole {
                id: (#[trigger] fwd.drop_first()[i]).0,
            }) by {
                assert(fwd.drop_first()[i] == fwd[i + 1]);
            }
        }
        lemma_knocks_leave(w, me, fwd.drop_first(), hads.drop_first(), key);
    }
}

/// A key that was wiped leaves nothing behind, neither a site nor a beacon.
pub proof fn law_wipe_leaves_nothing(v: RoomView, me: usize, key: WakeKey, hads: Seq<bool>)
    requires
        apart(toles_at(v, key), key),
        v.sites.contains_key(key) ==> v.sites[key].line.no_duplicates(),
    ensures
        !wiped(v, me, key, hads).sites.contains_key(key),
        !beacon_at(wiped(v, me, key, hads), key),
{
    if v.sites.contains_key(key) {
        let c = cleared(v, key);
        lemma_knocks_leave(c, me, v.sites[key].fwd, hads, key);
        lemma_released_all(
            knocked_all(c, me, v.sites[key].fwd, hads),
            me,
            v.sites[key].line,
        );
    }
}

/// A wake that finds nobody is not lost: it leaves a beacon, if there was memory for one, and
/// the next to wait for the key goes on at once.
pub proof fn law_wake_leaves_beacon(
    v: RoomView,
    me: usize,
    key: WakeKey,
    life: usize,
    hads: Seq<bool>,
)
    requires
        apart(toles_at(v, key), key),
        v.alive(life),
        !someone_waits(v, key),
        v.sites.contains_key(key) ==> v.alive(v.sites[key].life),
    ensures
        beacon_at(woken(v, me, key, life, true, hads), key),
{
    let t = touched(v, key, life, true);
    assert(pruned(t, key) == t);
    lemma_knocks_leave(t, me, toles_at(v, key), hads, key);
}

/// A beacon lets one go on and no second: taking it takes it away.
pub proof fn law_beacon_serves_once(v: RoomView, key: WakeKey)
    requires
        beacon_at(v, key),
    ensures
        !beacon_at(beacon_taken(v, key), key),
{
}

/// The room after `key` was woken so many times, and there was memory every time.
pub open spec fn woken_times(
    v: RoomView,
    me: usize,
    key: WakeKey,
    life: usize,
    hads: Seq<Seq<bool>>,
) -> RoomView
    decreases hads.len(),
{
    if hads.len() == 0 {
        v
    } else {
        woken(woken_times(v, me, key, life, hads.drop_last()), me, key, life, true, hads.last())
    }
}

proof fn lemma_landed(v: RoomView, me: usize, key: WakeKey, life: usize, hads: Seq<Seq<bool>>)
    requires
        key is Pies,
        v.alive(life),
        !someone_waits(v, key),
        v.sites.contains_key(key) ==> v.alive(v.sites[key].life),
    ensures
        ({
            let w = woken_times(v, me, key, life, hads);
            &&& hads.len() > 0 ==> beacon_at(w, key)
            &&& !someone_waits(w, key)
            &&& w.alive(life)
            &&& w.sites.contains_key(key) ==> w.alive(w.sites[key].life)
        }),
    decreases hads.len(),
{
    if hads.len() > 0 {
        let u = woken_times(v, me, key, life, hads.drop_last());
        lemma_landed(v, me, key, life, hads.drop_last());
        law_wake_leaves_beacon(u, me, key, life, hads.last());
        let t = touched(u, key, life, true);
        assert(pruned(t, key) == t);
        lemma_knocks_leave(t, me, toles_at(u, key), hads.last(), key);
    }
}

/// However many pies land on a task while it does not look, three or one, it is answered once:
/// the first time it asks it goes on at once, and the second time it does not.
pub proof fn law_landings_answer_once(
    v: RoomView,
    me: usize,
    task: usize,
    life: usize,
    hads: Seq<Seq<bool>>,
    x: RoomView,
    first: Result<Handoff<()>, GateError>,
    y: RoomView,
    second: Result<Handoff<()>, GateError>,
    dur: Option<u64>,
    now: u64,
)
    requires
        v.alive(life),
        !someone_waits(v, WakeKey::Pies { task }),
        v.sites.contains_key(WakeKey::Pies { task }) ==> v.alive(
            v.sites[WakeKey::Pies { task }].life,
        ),
        hads.len() > 0,
        block_contract(
            woken_times(v, me, WakeKey::Pies { task }, life, hads),
            x,
            me,
            WakeKey::Pies { task },
            life,
            dur,
            now,
            first,
        ),
        block_contract(x, y, me, WakeKey::Pies { task }, life, dur, now, second),
    ensures
        first == Ok::<Handoff<()>, GateError>(Handoff::Resume(())),
        !(second matches Ok(Handoff::Resume(_))),
{
    let key = WakeKey::Pies { task };
    lemma_landed(v, me, key, life, hads);
    law_beacon_serves_once(woken_times(v, me, key, life, hads), key);
}

/// A reason serves one that quits: who quits next on the same hart has none, unless one is
/// given to it, and the reasons of the other harts stay.
pub proof fn law_reason_serves_once(v: RoomView, me: usize, other: usize)
    requires
        v.reasons.len() == MAX_HART_SLOTS,
    ensures
        departed(v, me).reasons[reason_slot(me)] == 0,
        reason_slot(other) != reason_slot(me) ==> departed(v, me).reasons[reason_slot(other)]
            == v.reasons[reason_slot(other)],
        departed(departed(v, me), me).reasons == departed(v, me).reasons,
{
    assert(departed(departed(v, me), me).reasons =~= departed(v, me).reasons);
}

/// A task that quits takes the reason along that was left for it, once, and leaves nothing
/// behind: when its last rites have been settled, no husk is left, it had its last rites and was
/// cleared away, and it is nowhere in the room. Who quits next on the same hart, with no new
/// reason left, has none.
pub proof fn law_quit_takes_all_along(
    v: RoomView,
    me: usize,
    reason: usize,
    room: Room,
    remains: Seq<Remains>,
    next: Option<usize>,
    later: RoomView,
)
    requires
        v.reasons.len() == MAX_HART_SLOTS,
        v.reasons[reason_slot(me)] == reason,
        room.wf(),
        settled_by(
            departed(v, me),
            room@,
            me,
            v.lanes[me as int].running->0,
            remains,
            next,
        ),
        later.reasons == room@.reasons,
    ensures
        leaving_of(v, me) == (Leaving { tid: v.lanes[me as int].running->0, reason }),
        room@.husks.len() == 0,
        room@.tasks[v.lanes[me as int].running->0].state is Reaped,
        forall|spot: Spot| !(#[trigger] is_at(room@, spot, v.lanes[me as int].running->0)),
        leaving_of(later, me).reason == 0,
{
    let tid = v.lanes[me as int].running->0;
    assert(room@.tasks[tid] == room.tasks@[tid].body());
    assert(room.homed(tid));
    assert forall|spot: Spot| !(#[trigger] is_at(room@, spot, tid)) by {
        if is_at(room@, spot, tid) {
            lemma_spot(room, spot, tid);
        }
    }
}

/// Who waited first is served first: a wake makes the first of the line ready, and the others
/// move up.
pub proof fn law_wake_serves_the_first(
    v: RoomView,
    me: usize,
    key: WakeKey,
    life: usize,
    had: bool,
    hads: Seq<bool>,
)
    requires
        apart(toles_at(v, key), key),
        v.alive(life),
        someone_waits(v, key),
    ensures
        ({
            let w = woken(v, me, key, life, had, hads);
            let first = v.sites[key].line[0];
            &&& w.tasks[first].state == TaskState::Starved
            &&& !w.flying.contains(first)
            &&& v.sites[key].line.len() > 1 ==> w.sites.contains_key(key) && w.sites[key].line
                == v.sites[key].line.drop_first()
            &&& v.sites[key].line.len() == 1 ==> (w.sites.contains_key(key)
                ==> w.sites[key].line.len() == 0)
        }),
{
    let t = touched(v, key, life, had);
    lemma_knocks_leave(pruned(t, key), me, toles_at(v, key), hads, key);
    if v.sites[key].line.len() > 1 {
        assert(pruned(t, key) == t);
    }
}

/// What a wait begins a wake ends: a task that went to wait where nobody stood before it is
/// the one that the next wake makes ready. Its deadline, if it had one, is in the clock until
/// then and not after.
pub proof fn law_wait_then_wake(
    v: RoomView,
    me: usize,
    key: WakeKey,
    life: usize,
    now: u64,
    dur: Option<u64>,
    had: bool,
    hads: Seq<bool>,
)
    requires
        v.lanes[me as int].running is Some,
        v.alive(life),
        !v.sites.contains_key(key),
        dur matches Some(d) ==> now + d <= u64::MAX,
    ensures
        ({
            let id = v.lanes[me as int].running->0;
            let w = gone_to_wait(v, me, key, life, deadline_of(v, now, dur));
            let x = woken(w, me, key, life, had, hads);
            &&& w.sites[key].line == seq![id]
            &&& w.tasks[id].state == (TaskState::Blocked { key, ticket: v.next_ticket })
            &&& dur matches Some(d) ==> w.holders[v.next_ticket] == (key, id)
                && w.clock[v.next_ticket] == now + d
            &&& x.tasks[id].state == TaskState::Starved
            &&& !x.flying.contains(id)
            &&& !x.sites.contains_key(key)
            &&& !x.holders.contains_key(v.next_ticket)
            &&& !x.clock.contains_key(v.next_ticket)
        }),
{
    let id = v.lanes[me as int].running->0;
    let w = gone_to_wait(v, me, key, life, deadline_of(v, now, dur));
    assert(w.sites[key].line =~= seq![id]);
    assert(toles_at(w, key) =~= Seq::<(usize, usize)>::empty());
    assert(touched(w, key, life, had).sites[key].line =~= Seq::<usize>::empty());
}

/// A deadline ends the wait that it was set for, once: the task leaves the line and is
/// handed out, and what passes under the same ticket later finds nobody.
pub proof fn law_deadline_ends_wait(
    v: RoomView,
    me: usize,
    key: WakeKey,
    life: usize,
    now: u64,
    ticks: u64,
)
    requires
        v.lanes[me as int].running is Some,
        exists_now(v, v.lanes[me as int].running->0),
        v.alive(life),
        !v.sites.contains_key(key),
    ensures
        ({
            let id = v.lanes[me as int].running->0;
            let w = gone_to_wait(v, me, key, life, deadline_of(v, now, Some(ticks)));
            let (u, who) = claim(w, v.next_ticket);
            &&& who == Some(id)
            &&& u.flying.contains(id)
            &&& !u.sites.contains_key(key)
            &&& u.risen(me, id).tasks[id].state == TaskState::Starved
            &&& claim(u, v.next_ticket).1 is None
            &&& !u.clock.contains_key(v.next_ticket)
        }),
{
    let id = v.lanes[me as int].running->0;
    let w = gone_to_wait(v, me, key, life, deadline_of(v, now, Some(ticks)));
    assert(w.sites[key].line =~= seq![id]);
    lemma_without(seq![id], id, 0);
    assert(seq![id].remove(0) =~= Seq::<usize>::empty());
    assert(exists_now(w, id));
}

/// A deadline that a wake was quicker than wakes nobody.
pub proof fn law_late_deadline_is_void(
    v: RoomView,
    me: usize,
    key: WakeKey,
    life: usize,
    now: u64,
    ticks: u64,
    had: bool,
    hads: Seq<bool>,
)
    requires
        v.lanes[me as int].running is Some,
        v.alive(life),
        !v.sites.contains_key(key),
        now + ticks <= u64::MAX,
    ensures
        ({
            let w = gone_to_wait(v, me, key, life, deadline_of(v, now, Some(ticks)));
            let x = woken(w, me, key, life, had, hads);
            claim(x, v.next_ticket) == (voided(x, v.next_ticket), None::<usize>)
        }),
{
    law_wait_then_wake(v, me, key, life, now, Some(ticks), had, hads);
}

/// Whether every ticket in use was given out before the next one.
pub open spec fn tickets_below(v: RoomView) -> bool {
    &&& forall|t: u64| #[trigger] v.holders.contains_key(t) ==> t < v.next_ticket
    &&& forall|t: u64| #[trigger] v.clock.contains_key(t) ==> v.holders.contains_key(t)
}

/// A wait is registered under a ticket that nobody waits under, until the numbers run out: a
/// wait leaves every ticket in use below the next one, and whatever only takes registrations
/// away does.
pub proof fn law_tickets_are_new(
    v: RoomView,
    w: RoomView,
    me: usize,
    key: WakeKey,
    life: usize,
    dur: Option<u64>,
    now: u64,
    r: Result<Handoff<()>, GateError>,
)
    requires
        tickets_below(v),
        v.next_ticket < u64::MAX,
        block_contract(v, w, me, key, life, dur, now, r),
    ensures
        !v.holders.contains_key(v.next_ticket),
        !v.clock.contains_key(v.next_ticket),
        tickets_below(w),
        forall|ticket: u64| tickets_below(#[trigger] voided(w, ticket)),
{
}

/// A wait that is refused leaves no deadline: the clock holds what it held before.
pub proof fn law_refused_wait_has_no_deadline(
    v: RoomView,
    w: RoomView,
    me: usize,
    key: WakeKey,
    life: usize,
    dur: Option<u64>,
    now: u64,
    r: Result<Handoff<()>, GateError>,
)
    requires
        block_contract(v, w, me, key, life, dur, now, r),
        r is Err,
        tickets_below(v),
    ensures
        w.clock == v.clock,
        w.holders == v.holders,
{
    assert(v.clock.remove(v.next_ticket) =~= v.clock);
    let id = v.lanes[me as int].running->0;
    assert(v.holders.insert(v.next_ticket, (key, id)).remove(v.next_ticket) =~= v.holders);
}

/// A wait that does not come about, because the site's life has ended or a beacon came
/// meanwhile, leaves no deadline and no registration.
pub proof fn law_undone_wait_has_no_deadline(
    v: RoomView,
    me: usize,
    key: WakeKey,
    life: usize,
    tock: Option<Tock>,
)
    requires
        v.lanes[me as int].running is Some,
        !stays(sited(v, key, life), key),
    ensures
        ({
            let w = gone_to_wait(v, me, key, life, tock);
            &&& !w.clock.contains_key(v.next_ticket)
            &&& !w.holders.contains_key(v.next_ticket)
            &&& w.tasks[v.lanes[me as int].running->0].state == TaskState::Starved
        }),
{
}

/// A wait that comes about with a deadline has it in the clock, under the ticket that it is
/// registered under, so many ticks from now; every other deadline stays.
pub proof fn law_timed_wait_is_in_the_clock(
    v: RoomView,
    me: usize,
    key: WakeKey,
    life: usize,
    now: u64,
    ticks: u64,
)
    requires
        v.lanes[me as int].running is Some,
        stays(sited(v, key, life), key),
        now + ticks <= u64::MAX,
    ensures
        ({
            let w = gone_to_wait(v, me, key, life, deadline_of(v, now, Some(ticks)));
            &&& w.clock == v.clock.insert(v.next_ticket, (now + ticks) as u64)
            &&& w.holders[v.next_ticket] == (key, v.lanes[me as int].running->0)
        }),
{
}

/// A task that is stopped while it waits has no deadline any more: neither the clock nor the
/// registrations know its ticket.
pub proof fn law_stopped_has_no_deadline(
    v: RoomView,
    w: RoomView,
    id: usize,
    reason: usize,
)
    requires
        v.tasks[id].state is Blocked,
        suspended(v, w, id, reason, true),
    ensures
        off(v, w, id),
        w.tasks[id].state is Doomed,
{
}

/// A team is above another only if it is older: nobody is above itself, and no two are above
/// each other.
pub proof fn law_above_is_older(v: RoomView, actor: usize, target: usize)
    requires
        above(v, actor, target),
    ensures
        actor < target,
    decreases target,
{
    let t = v.tasks[v.teams[target].sire->0].ident.team;
    if t != actor {
        law_above_is_older(v, actor, t);
    }
}

/// Being above is passed on: who is above one that is above a third is above the third.
pub proof fn law_above_is_transitive(v: RoomView, a: usize, b: usize, c: usize)
    requires
        above(v, a, b),
        above(v, b, c),
    ensures
        above(v, a, c),
    decreases c,
{
    let t = v.tasks[v.teams[c].sire->0].ident.team;
    if t != b {
        law_above_is_transitive(v, a, b, t);
    }
}

/// Whether teams and their founders know each other: who founded a team is in the list of its
/// own team and has the team among its heirs.
pub open spec fn kin(v: RoomView) -> bool {
    forall|t: usize| #[trigger]
        v.teams.contains_key(t) && v.teams[t].sire is Some && exists_now(v, v.teams[t].sire->0)
            ==> {
            let s = v.teams[t].sire->0;
            let p = v.tasks[s].ident.team;
            &&& v.teams.contains_key(p)
            &&& v.teams[p].tasks.contains(s)
            &&& v.tasks[s].heirs.contains(t)
        }
}

/// Who exists is among those that exist.
pub proof fn lemma_living_has(v: RoomView, ids: Seq<usize>, x: usize)
    requires
        ids.contains(x),
        exists_now(v, x),
    ensures
        living(v, ids).contains(x),
    decreases ids.len(),
{
    let rest = ids.drop_last();
    let i = choose|i: int| 0 <= i < ids.len() && ids[i] == x;
    if i == ids.len() - 1 {
        let l = living(v, rest).push(ids.last());
        assert(l[l.len() - 1] == x);
    } else {
        assert(rest[i] == x);
        lemma_living_has(v, rest, x);
        let l = living(v, rest);
        let j = choose|j: int| 0 <= j < l.len() && l[j] == x;
        if exists_now(v, ids.last()) {
            assert(l.push(ids.last())[j] == x);
        }
    }
}

/// The teams that some tasks founded are those that each of them founded.
pub proof fn lemma_founded_has(v: RoomView, ids: Seq<usize>, s: usize, t: usize)
    requires
        ids.contains(s),
        v.tasks[s].heirs.contains(t),
    ensures
        founded(v, ids).contains(t),
    decreases ids.len(),
{
    let rest = ids.drop_last();
    let i = choose|i: int| 0 <= i < ids.len() && ids[i] == s;
    let before = founded(v, rest);
    let here = v.tasks[ids.last()].heirs;
    if i == ids.len() - 1 {
        let j = choose|j: int| 0 <= j < here.len() && here[j] == t;
        assert((before + here)[before.len() + j] == t);
    } else {
        assert(rest[i] == s);
        lemma_founded_has(v, rest, s, t);
        let j = choose|j: int| 0 <= j < before.len() && before[j] == t;
        assert((before + here)[j] == t);
    }
}

/// The lineages of some teams hold the lineage of each younger one of them.
pub proof fn lemma_lineages_has(v: RoomView, t: usize, teams: Seq<usize>, u: usize, x: usize)
    requires
        teams.contains(u),
        u > t,
        lineage(v, u).contains(x),
    ensures
        lineages(v, t, teams).contains(x),
    decreases teams.len(),
{
    let rest = teams.drop_last();
    let i = choose|i: int| 0 <= i < teams.len() && teams[i] == u;
    let tail = lineages(v, t, rest);
    if i == teams.len() - 1 {
        let l = lineage(v, u);
        let j = choose|j: int| 0 <= j < l.len() && l[j] == x;
        assert((l + tail)[j] == x);
    } else {
        assert(rest[i] == u);
        lemma_lineages_has(v, t, rest, u, x);
        let j = choose|j: int| 0 <= j < tail.len() && tail[j] == x;
        if teams.last() > t {
            let l = lineage(v, teams.last());
            assert((l + tail)[l.len() + j] == x);
        }
    }
}

/// Whoever belongs to a team goes down with every team above it: the lineage of a team has the
/// living tasks of all teams below.
pub proof fn law_lineage_reaches_all_below(v: RoomView, actor: usize, target: usize, x: usize)
    requires
        kin(v),
        above(v, actor, target),
        lineage(v, target).contains(x),
    ensures
        lineage(v, actor).contains(x),
    decreases target,
{
    let s = v.teams[target].sire->0;
    let p = v.tasks[s].ident.team;
    lemma_living_has(v, v.teams[p].tasks, s);
    assert(members(v, p).contains(s));
    lemma_founded_has(v, members(v, p), s, target);
    lemma_lineages_has(v, p, founded(v, members(v, p)), target, x);
    let rest = lineages(v, p, founded(v, members(v, p)));
    let j = choose|j: int| 0 <= j < rest.len() && rest[j] == x;
    assert((members(v, p) + rest)[members(v, p).len() + j] == x);
    assert(lineage(v, p).contains(x));
    if p != actor {
        law_lineage_reaches_all_below(v, actor, p, x);
    }
}

/// Going to wait loses nobody: who goes to wait is in the line or ready afterwards, not on
/// the way, and every other task in flight is where it was.
pub proof fn law_waiting_keeps_everybody(
    v: RoomView,
    me: usize,
    key: WakeKey,
    life: usize,
    tock: Option<Tock>,
)
    requires
        me < v.lanes.len(),
        v.lanes[me as int].running is Some,
        !v.flying.contains(v.lanes[me as int].running->0),
    ensures
        ({
            let w = gone_to_wait(v, me, key, life, tock);
            let id = v.lanes[me as int].running->0;
            &&& w.flying == v.flying
            &&& w.tasks[id].state == TaskState::Starved || (w.tasks[id].state
                == (TaskState::Blocked { key, ticket: v.next_ticket })
                && w.sites.contains_key(key) && w.sites[key].line.last() == id)
        }),
{
    let id = v.lanes[me as int].running->0;
    let w = gone_to_wait(v, me, key, life, tock);
    assert(w.flying =~= v.flying);
}

} // verus!
