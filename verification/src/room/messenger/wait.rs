//! Waiting and waking.
//!
//! A task waits at the site of a key. A wake takes the first of the line, or leaves a
//! beacon where nobody waits; the next task that would wait there takes the beacon and
//! goes on at once.
pub mod clock;
pub mod holder;
pub mod site;

use vstd::prelude::*;
use crate::room::{Room, RoomView};
use crate::room::messenger::{reason_slot, set_exit_reason};
use crate::room::messenger::doom::take_doomed;
use crate::room::messenger::doom::undoomed;
use crate::room::messenger::handoff::{GateError, Handoff};
use crate::room::messenger::wait::clock::drain;
use crate::room::messenger::wait::clock::{batch_of, due_of, passed};
use crate::room::messenger::wait::holder::{Ticket, arm, hold, make_clock_room, make_room, void};
use crate::room::messenger::wait::holder::{holder_of, voided};
use crate::room::messenger::wait::site::{SiteView, WakeKey};
use crate::room::messenger::wait::site::{attached, fresh_site};
use crate::room::scheduler::Tock;
use crate::unit::task::TaskState;

verus! {

/// Whether the site of `key` has nothing to keep: nobody waits there, and either its
/// life has ended or it holds neither a beacon nor a tole.
pub open spec fn prunable(v: RoomView, key: WakeKey) -> bool {
    let s = v.sites[key];
    v.sites.contains_key(key) && s.line.len() == 0 && (!v.alive(s.life) || (!s.pend && s.fwd.len()
        == 0))
}

/// The room without the site of `key`, if that has nothing to keep.
pub open spec fn pruned(v: RoomView, key: WakeKey) -> RoomView {
    if prunable(v, key) {
        RoomView { sites: v.sites.remove(key), ..v }
    } else {
        v
    }
}

/// Takes the site of `key` away if it has nothing to keep.
pub fn prune(room: &mut Room, key: WakeKey)
    requires
        old(room).wf(),
    ensures
        final(room).wf(),
        final(room)@ == pruned(old(room)@, key),
{
    let mut idle: bool = false;
    match room.sites.get(key) {
        Some(site) => {
            idle = site.chain.is_empty(Ghost(room.tasks@)) && (!room.lives.contains(site.life) || (
            !site.pend && site.fwd.is_empty()));
            assert(room@.sites[key] == site.held());
        },
        None => {},
    }
    if idle {
        room.drop_site(key);
    }
}

/// The room after the beacon at `key` has been taken.
pub open spec fn beacon_taken(v: RoomView, key: WakeKey) -> RoomView {
    pruned(v.set_site(key, SiteView { pend: false, ..v.sites[key] }), key)
}

/// Whether a beacon stands at `key`.
pub open spec fn beacon_at(v: RoomView, key: WakeKey) -> bool {
    v.sites.contains_key(key) && v.sites[key].pend
}

/// Takes the beacon at `key`, if there is one.
pub fn take_beacon(room: &mut Room, key: WakeKey) -> (taken: bool)
    requires
        old(room).wf(),
    ensures
        final(room).wf(),
        taken == beacon_at(old(room)@, key),
        final(room)@ == (if taken {
            beacon_taken(old(room)@, key)
        } else {
            old(room)@
        }),
{
    let mut taken: bool = false;
    match room.sites.get(key) {
        Some(site) => {
            taken = site.pend;
            assert(room@.sites[key] == site.held());
        },
        None => {},
    }
    if taken {
        room.set_pend(key, false);
        prune(room, key);
    }
    taken
}

/// The room after the task `id`, blocked and in flight, was made ready again: its
/// registration is gone and the conductor has handed it to a hart.
pub open spec fn released(v: RoomView, me: usize, id: usize) -> RoomView {
    voided(v, v.tasks[id].state->ticket).risen(me, id)
}

/// [`released`] for each of `ids`, in order.
pub open spec fn released_all(v: RoomView, me: usize, ids: Seq<usize>) -> RoomView
    decreases ids.len(),
{
    if ids.len() == 0 {
        v
    } else {
        released_all(released(v, me, ids[0]), me, ids.drop_first())
    }
}

/// Whether the registration and the deadline that the task `id` waited under in `v` are gone in
/// `w`.
pub open spec fn off(v: RoomView, w: RoomView, id: usize) -> bool {
    let ticket = v.tasks[id].state->ticket;
    !w.clock.contains_key(ticket) && !w.holders.contains_key(ticket)
}

/// Making tasks ready takes their registrations and deadlines away, and brings none back.
pub proof fn lemma_released_off(v: RoomView, me: usize, ids: Seq<usize>)
    requires
        ids.no_duplicates(),
    ensures
        forall|i: int| 0 <= i < ids.len() ==> off(v, released_all(v, me, ids), #[trigger] ids[i]),
        forall|t: u64|
            !v.clock.contains_key(t) ==> !(#[trigger] released_all(
                v,
                me,
                ids,
            ).clock.contains_key(t)),
        forall|t: u64|
            !v.holders.contains_key(t) ==> !(#[trigger] released_all(
                v,
                me,
                ids,
            ).holders.contains_key(t)),
    decreases ids.len(),
{
    if ids.len() > 0 {
        let u = released(v, me, ids[0]);
        let rest = ids.drop_first();
        lemma_released_off(u, me, rest);
        assert forall|i: int| 0 <= i < ids.len() implies off(
            v,
            released_all(v, me, ids),
            #[trigger] ids[i],
        ) by {
            if i > 0 {
                assert(rest[i - 1] == ids[i]);
                assert(u.tasks[ids[i]] == v.tasks[ids[i]]);
                assert(off(u, released_all(u, me, rest), rest[i - 1]));
            }
        }
    }
}

/// Makes a blocked task in flight ready again.
pub fn release(room: &mut Room, me: usize, id: usize)
    requires
        old(room).wf(),
        old(room)@.flying.contains(id),
        old(room)@.tasks[id].state is Blocked,
    ensures
        final(room).wf(),
        final(room)@ == released(old(room)@, me, id),
        slots_kept(old(room)@, final(room)@),
{
    let mut ticket: u64 = 0;
    match room.tasks.get(id) {
        Some(t) => {
            if let TaskState::Blocked { ticket: mine, .. } = t.state {
                ticket = mine;
            }
        },
        None => {},
    }
    assert(ticket == room@.tasks[id].state->ticket);
    void(room, Ticket(ticket));
    room.transform(id, TaskState::Starved);
    room.kick(me, id);
}

/// Makes the blocked tasks `ids`, all in flight, ready again, in order, and takes their
/// registrations away. Gives their number.
pub fn unchain(room: &mut Room, me: usize, ids: &Vec<usize>) -> (woke: usize)
    requires
        old(room).wf(),
        ids@.no_duplicates(),
        forall|i: int|
            0 <= i < ids@.len() ==> old(room)@.flying.contains(#[trigger] ids@[i])
                && old(room)@.tasks[ids@[i]].state is Blocked,
    ensures
        final(room).wf(),
        woke == ids@.len(),
        final(room)@ == released_all(old(room)@, me, ids@),
        backdrop_kept(old(room)@, final(room)@),
        final(room)@.flying == old(room)@.flying.difference(ids@.to_set()),
        forall|x: usize| !ids@.contains(x) ==> final(room)@.tasks[x] == old(room)@.tasks[x],
{
    proof {
        lemma_released_all(old(room)@, me, ids@);
    }
    let mut i: usize = 0;
    assert(ids@.skip(0) =~= ids@);
    while i < ids.len()
        invariant
            room.wf(),
            i <= ids@.len(),
            ids@.no_duplicates(),
            forall|j: int|
                i <= j < ids@.len() ==> room@.flying.contains(#[trigger] ids@[j])
                    && room@.tasks[ids@[j]].state is Blocked,
            released_all(room@, me, ids@.skip(i as int)) == released_all(old(room)@, me, ids@),
            backdrop_kept(old(room)@, room@),
        decreases ids@.len() - i,
    {
        let ghost before = room@;
        let id: usize = ids[i];
        release(room, me, id);
        proof {
            assert(room@.tasks.dom() =~= before.tasks.dom());
            assert(ids@.skip(i as int).drop_first() =~= ids@.skip(i + 1));
            assert forall|j: int| i < j < ids@.len() implies room@.flying.contains(
                #[trigger] ids@[j],
            ) && room@.tasks[ids@[j]].state is Blocked by {
                assert(before.flying.contains(ids@[j]));
                assert(ids@[j] != ids@[i as int]);
            }
        }
        i += 1;
    }
    i
}

/// [`RoomView::risen`] for each of `ids`, in order.
pub open spec fn risen_all(v: RoomView, me: usize, ids: Seq<usize>) -> RoomView
    decreases ids.len(),
{
    if ids.len() == 0 {
        v
    } else {
        risen_all(v.risen(me, ids[0]), me, ids.drop_first())
    }
}

/// Whether the same tasks run on the same harts.
pub open spec fn slots_kept(a: RoomView, b: RoomView) -> bool {
    &&& b.lanes.len() == a.lanes.len()
    &&& forall|h: int|
        0 <= h < a.lanes.len() ==> (#[trigger] b.lanes[h]).running == a.lanes[h].running
}

/// Makes the tasks `ids`, all in flight, ready, in order. Gives their number.
pub fn rise(room: &mut Room, me: usize, ids: &Vec<usize>) -> (woke: usize)
    requires
        old(room).wf(),
        ids@.no_duplicates(),
        forall|i: int| 0 <= i < ids@.len() ==> old(room)@.flying.contains(#[trigger] ids@[i]),
    ensures
        final(room).wf(),
        woke == ids@.len(),
        final(room)@ == risen_all(old(room)@, me, ids@),
        slots_kept(old(room)@, final(room)@),
{
    let mut i: usize = 0;
    assert(ids@.skip(0) =~= ids@);
    while i < ids.len()
        invariant
            room.wf(),
            i <= ids@.len(),
            ids@.no_duplicates(),
            forall|j: int| i <= j < ids@.len() ==> room@.flying.contains(#[trigger] ids@[j]),
            risen_all(room@, me, ids@.skip(i as int)) == risen_all(old(room)@, me, ids@),
            slots_kept(old(room)@, room@),
        decreases ids@.len() - i,
    {
        let ghost before = room@;
        let id: usize = ids[i];
        room.transform(id, TaskState::Starved);
        room.kick(me, id);
        proof {
            assert(ids@.skip(i as int).drop_first() =~= ids@.skip(i + 1));
            assert forall|j: int| i < j < ids@.len() implies room@.flying.contains(
                #[trigger] ids@[j],
            ) by {
                assert(before.flying.contains(ids@[j]));
                assert(ids@[j] != ids@[i as int]);
            }
        }
        i += 1;
    }
    i
}

/// The room after a knock at `key`: the first of the line is made ready; with nobody
/// there, a beacon stays. A site that is not there is made for it, unless `life` has
/// ended or there was no memory (`had` is false).
pub open spec fn knocked(v: RoomView, me: usize, key: WakeKey, life: usize, had: bool) -> RoomView {
    if v.sites.contains_key(key) {
        if v.sites[key].line.len() > 0 {
            released(pruned(v.popped(key), key), me, v.sites[key].line[0])
        } else {
            pruned(v.set_site(key, SiteView { pend: true, ..v.sites[key] }), key)
        }
    } else if v.alive(life) && had {
        v.set_site(key, SiteView { pend: true, ..fresh_site(life) })
    } else {
        v
    }
}

/// Whether nothing but harts, lines, registrations and the waking tasks differs: the
/// tasks in flight are as they were, and so is all that waking has no part in.
pub open spec fn flight_kept(a: RoomView, b: RoomView) -> bool {
    &&& b.flying == a.flying
    &&& forall|x: usize| #[trigger] a.flying.contains(x) ==> b.tasks[x] == a.tasks[x]
    &&& backdrop_kept(a, b)
}

/// Whether all that waking has no part in is as it was.
pub open spec fn backdrop_kept(a: RoomView, b: RoomView) -> bool {
    &&& b.tasks.dom() == a.tasks.dom()
    &&& forall|x: usize| a.tasks.contains_key(x) ==> (#[trigger] b.tasks[x]).ident == a.tasks[x].ident
    &&& slots_kept(a, b)
    &&& b.teams == a.teams
    &&& b.spaces == a.spaces
    &&& b.lives == a.lives
    &&& b.husks == a.husks
    &&& b.doomed == a.doomed
    &&& b.pending == a.pending
    &&& b.culled == a.culled
    &&& b.reasons == a.reasons
    &&& b.next_ticket == a.next_ticket
    &&& b.score.pushed == a.score.pushed
    &&& b.score.reaped == a.score.reaped
    &&& b.score.rooted == a.score.rooted
    &&& b.score.waiting == a.score.waiting
}

/// Knocks at `key`, where there is memory for a site (`had`) or not. Gives how many tasks
/// were made ready.
pub fn knock_with(room: &mut Room, me: usize, key: WakeKey, life: usize, had: bool) -> (woke: usize)
    requires
        old(room).wf(),
    ensures
        final(room).wf(),
        final(room)@ == knocked(old(room)@, me, key, life, had),
        woke == (if someone_waits(old(room)@, key) {
            1usize
        } else {
            0usize
        }),
        flight_kept(old(room)@, final(room)@),
{
    let ghost v = room@;
    if room.sites.contains(key) {
        match room.site_pop(key) {
            Some(id) => {
                prune(room, key);
                release(room, me, id);
                proof {
                    assert(room@.flying =~= v.flying);
                    assert(room@.tasks.dom() =~= v.tasks.dom());
                }
                1
            },
            None => {
                room.set_pend(key, true);
                prune(room, key);
                0
            },
        }
    } else {
        if had && room.lives.contains(life) {
            room.open_site(key, life);
            room.set_pend(key, true);
            assert(room@.sites =~= v.sites.insert(
                key,
                SiteView { pend: true, ..fresh_site(life) },
            ));
            assert(room@ =~= knocked(v, me, key, life, true));
        }
        0
    }
}

/// Makes room for a site of `key` unless there is one. `false` where the allocator has
/// none.
pub fn make_site_room(room: &mut Room, key: WakeKey) -> (had: bool)
    requires
        old(room).wf(),
    ensures
        final(room).wf(),
        final(room)@ == old(room)@,
        final(room).lanes == old(room).lanes,
        old(room)@.sites.contains_key(key) ==> had,
{
    if room.sites.contains(key) {
        return true;
    }
    let had: bool = room.sites.try_reserve(key);
    proof {
        lemma_reserved(*old(room), *room);
    }
    had
}

/// Knocks at `key`, as [`knock_with`] does. Gives how many tasks were made ready, and
/// whether there was memory.
pub fn knock(room: &mut Room, me: usize, key: WakeKey, life: usize) -> (r: (usize, bool))
    requires
        old(room).wf(),
    ensures
        final(room).wf(),
        final(room)@ == knocked(old(room)@, me, key, life, r.1),
        r.0 == (if someone_waits(old(room)@, key) {
            1usize
        } else {
            0usize
        }),
        flight_kept(old(room)@, final(room)@),
{
    let mut had: bool = true;
    if room.lives.contains(life) {
        had = make_site_room(room, key);
    }
    (knock_with(room, me, key, life, had), had)
}

/// Making room for a site changes nothing.
proof fn lemma_reserved(a: Room, b: Room)
    requires
        a.wf(),
        b.sites.wf(),
        b.sites@ == a.sites@,
        b == (Room { sites: b.sites, ..a }),
    ensures
        b.wf(),
        b@ == a@,
{
    assert forall|id: usize| #[trigger] b.tasks@.contains_key(id) implies b.homed(id) by {
        assert(a.homed(id));
    }
    assert(b@ =~= a@);
}

/// [`knocked`] at each tole of `fwd`, in order; `hads` says where there was memory.
pub open spec fn knocked_all(
    v: RoomView,
    me: usize,
    fwd: Seq<(usize, usize)>,
    hads: Seq<bool>,
) -> RoomView
    decreases fwd.len(),
{
    if fwd.len() == 0 {
        v
    } else {
        knocked_all(
            knocked(v, me, WakeKey::Tole { id: fwd[0].0 }, fwd[0].1, hads[0]),
            me,
            fwd.drop_first(),
            hads.drop_first(),
        )
    }
}

/// A knock at the last tole comes after the knocks at the others.
proof fn lemma_knocked_push(
    v: RoomView,
    me: usize,
    fwd: Seq<(usize, usize)>,
    hads: Seq<bool>,
    e: (usize, usize),
    had: bool,
)
    requires
        hads.len() == fwd.len(),
    ensures
        knocked_all(v, me, fwd.push(e), hads.push(had)) == knocked(
            knocked_all(v, me, fwd, hads),
            me,
            WakeKey::Tole { id: e.0 },
            e.1,
            had,
        ),
    decreases fwd.len(),
{
    reveal_with_fuel(knocked_all, 2);
    if fwd.len() == 0 {
        assert(fwd.push(e).drop_first() =~= Seq::<(usize, usize)>::empty());
    } else {
        assert(fwd.push(e).drop_first() =~= fwd.drop_first().push(e));
        assert(hads.push(had).drop_first() =~= hads.drop_first().push(had));
        lemma_knocked_push(
            knocked(v, me, WakeKey::Tole { id: fwd[0].0 }, fwd[0].1, hads[0]),
            me,
            fwd.drop_first(),
            hads.drop_first(),
            e,
            had,
        );
    }
}

/// Knocks at each tole of `fwd`. Gives where there was memory.
fn knock_all(room: &mut Room, me: usize, fwd: &Vec<(usize, usize)>) -> (hads: Vec<bool>)
    requires
        old(room).wf(),
    ensures
        final(room).wf(),
        hads@.len() == fwd@.len(),
        final(room)@ == knocked_all(old(room)@, me, fwd@, hads@),
        flight_kept(old(room)@, final(room)@),
{
    let mut hads: Vec<bool> = Vec::new();
    let mut i: usize = 0;
    assert(fwd@.take(0) =~= Seq::<(usize, usize)>::empty());
    while i < fwd.len()
        invariant
            room.wf(),
            i <= fwd@.len(),
            hads@.len() == i,
            room@ == knocked_all(old(room)@, me, fwd@.take(i as int), hads@),
            flight_kept(old(room)@, room@),
        decreases fwd@.len() - i,
    {
        let (tole, life) = fwd[i];
        let ghost was = hads@;
        let r: (usize, bool) = knock(room, me, WakeKey::Tole { id: tole }, life);
        hads.push(r.1);
        proof {
            assert(fwd@.take(i + 1) =~= fwd@.take(i as int).push(fwd@[i as int]));
            lemma_knocked_push(
                old(room)@,
                me,
                fwd@.take(i as int),
                was,
                fwd@[i as int],
                r.1,
            );
        }
        i += 1;
    }
    assert(fwd@.take(i as int) =~= fwd@);
    hads
}

/// The room without the site of `key`; who waited there is in flight.
pub open spec fn cleared(v: RoomView, key: WakeKey) -> RoomView {
    RoomView {
        sites: v.sites.remove(key),
        flying: v.flying.union(v.sites[key].line.to_set()),
        ..v
    }
}

/// Takes the site of `key` away. Gives the tasks that waited there, in order and in
/// flight, and the toles to knock at.
fn clear_site(room: &mut Room, key: WakeKey) -> (r: (Vec<usize>, Vec<(usize, usize)>))
    requires
        old(room).wf(),
        old(room)@.sites.contains_key(key),
    ensures
        final(room).wf(),
        final(room)@ == cleared(old(room)@, key),
        r.0@ == old(room)@.sites[key].line,
        r.1@ == old(room)@.sites[key].fwd,
        r.0@.no_duplicates(),
        forall|i: int|
            0 <= i < r.0@.len() ==> final(room)@.flying.contains(#[trigger] r.0@[i])
                && final(room)@.tasks.contains_key(r.0@[i]) && final(room)@.tasks[r.0@[i]].state is Blocked && !old(room)@.flying.contains(
                r.0@[i],
            ),
{
    let ghost v = room@;
    let ghost line = v.sites[key].line;
    let mut fwd: Vec<(usize, usize)> = Vec::new();
    match room.sites.get(key) {
        Some(site) => {
            assert(v.sites[key] == site.held());
            proof {
                site.chain.lemma_members(room.tasks@);
            }
            fwd = site.fwd.entries();
        },
        None => {},
    }
    let mut ids: Vec<usize> = Vec::new();
    assert(line.skip(0) =~= line);
    assert(line.take(0) =~= Seq::<usize>::empty());
    assert(room@.sites =~= v.sites.insert(key, v.sites[key]));
    assert(room@.flying =~= v.flying.union(ids@.to_set()));
    loop
        invariant
            room.wf(),
            v == old(room)@,
            line == v.sites[key].line,
            line.no_duplicates(),
            ids@.len() <= line.len(),
            ids@ == line.take(ids@.len() as int),
            room@ == (RoomView {
                sites: v.sites.insert(
                    key,
                    SiteView { line: line.skip(ids@.len() as int), ..v.sites[key] },
                ),
                flying: v.flying.union(ids@.to_set()),
                ..v
            }),
            forall|i: int|
                0 <= i < ids@.len() ==> room@.tasks[#[trigger] ids@[i]].state is Blocked
                    && room@.tasks.contains_key(ids@[i]) && !v.flying.contains(ids@[i]),
        ensures
            ids@.len() == line.len(),
        decreases line.len() - ids@.len(),
    {
        let ghost n = ids@.len() as int;
        let ghost here = ids@;
        match room.site_pop(key) {
            None => {
                break;
            },
            Some(id) => {
                ids.push(id);
                proof {
                    assert(line.skip(n).drop_first() =~= line.skip(n + 1));
                    assert(line.take(n + 1) =~= line.take(n).push(line[n]));
                    crate::room::scheduler::hart::lemma_push_set(here, id);
                    assert(v.flying.union(here.to_set()).insert(id) =~= v.flying.union(
                        ids@.to_set(),
                    ));
                    assert(room@.sites =~= v.sites.insert(
                        key,
                        SiteView { line: line.skip(n + 1), ..v.sites[key] },
                    ));
                }
            },
        }
    }
    assert(line.take(line.len() as int) =~= line);
    room.drop_site(key);
    assert(room@.sites =~= v.sites.remove(key));
    (ids, fwd)
}

/// The room after `key` has been wiped: its site is gone, its toles have been knocked
/// at, and all who waited there are ready.
pub open spec fn wiped(v: RoomView, me: usize, key: WakeKey, hads: Seq<bool>) -> RoomView {
    if v.sites.contains_key(key) {
        released_all(
            knocked_all(cleared(v, key), me, v.sites[key].fwd, hads),
            me,
            v.sites[key].line,
        )
    } else {
        v
    }
}

/// Wipes `key`. Gives how many waited there.
pub fn wipe(room: &mut Room, me: usize, key: WakeKey) -> (woke: usize)
    requires
        old(room).wf(),
    ensures
        final(room).wf(),
        exists|hads: Seq<bool>|
            final(room)@ == #[trigger] wiped(old(room)@, me, key, hads) && hads.len() == toles_at(
                old(room)@,
                key,
            ).len(),
        woke == (if old(room)@.sites.contains_key(key) {
            old(room)@.sites[key].line.len()
        } else {
            0
        }),
        flight_kept(old(room)@, final(room)@),
        forall|i: int|
            old(room)@.sites.contains_key(key) && 0 <= i < old(room)@.sites[key].line.len() ==> off(
                old(room)@,
                final(room)@,
                #[trigger] old(room)@.sites[key].line[i],
            ),
{
    if !room.sites.contains(key) {
        assert(room@ == wiped(old(room)@, me, key, Seq::empty()));
        return 0;
    }
    let (ids, fwd) = clear_site(room, key);
    let hads: Vec<bool> = knock_all(room, me, &fwd);
    let ghost k = room@;
    let woke: usize = unchain(room, me, &ids);
    proof {
        let v = old(room)@;
        lemma_released_off(k, me, ids@);
        assert forall|i: int| 0 <= i < v.sites[key].line.len() implies off(
            v,
            room@,
            #[trigger] v.sites[key].line[i],
        ) by {
            assert(ids@[i] == v.sites[key].line[i]);
            assert(off(k, room@, ids@[i]));
        }
        assert(room@.flying =~= v.flying) by {
            assert forall|x: usize| ids@.to_set().contains(x) implies !v.flying.contains(x) by {
                let i = choose|i: int| 0 <= i < ids@.len() && ids@[i] == x;
                assert(!v.flying.contains(ids@[i]));
            }
        }
        assert forall|x: usize| #[trigger] v.flying.contains(x) implies room@.tasks[x]
            == v.tasks[x] by {
            if ids@.contains(x) {
                assert(ids@.to_set().contains(x));
            }
        }
    }
    assert(room@ == wiped(old(room)@, me, key, hads@));
    woke
}

/// The room after `tole` was attached to the site of `key`.
pub open spec fn forwarded(v: RoomView, key: WakeKey, tole: usize, life: usize) -> RoomView {
    pruned(
        v.set_site(
            key,
            SiteView { fwd: v.sites[key].fwd.push((tole, life)), ..v.sites[key] },
        ),
        key,
    )
}

/// What [`forward_with`] promises.
pub open spec fn forward_given(
    v: RoomView,
    w: RoomView,
    key: WakeKey,
    life: usize,
    tole: usize,
    tole_life: usize,
    had: bool,
    ok: bool,
) -> bool {
    let s = v.sites[key];
    if v.sites.contains_key(key) {
        if attached(s.fwd, tole) {
            ok && w == pruned(v, key)
        } else if s.fwd.len() == site::FWD_MAX {
            !ok && w == pruned(v, key)
        } else {
            ok && w == forwarded(v, key, tole, tole_life)
        }
    } else if had {
        ok && w == forwarded(v.set_site(key, fresh_site(life)), key, tole, tole_life)
    } else {
        !ok && w == v
    }
}

/// What [`forward`] promises, whether there was memory or not.
pub open spec fn forward_contract(
    v: RoomView,
    w: RoomView,
    key: WakeKey,
    life: usize,
    tole: usize,
    tole_life: usize,
    ok: bool,
) -> bool {
    exists|had: bool| #[trigger] forward_given(v, w, key, life, tole, tole_life, had, ok)
}

/// Lets a wake of `key` knock at `tole`. A site that is not there is made with the life
/// `life`, where there is memory for it (`had`). Refused where there is none, or where
/// eight others are attached already.
pub fn forward_with(
    room: &mut Room,
    key: WakeKey,
    life: usize,
    tole: usize,
    tole_life: usize,
    had: bool,
) -> (r: Result<(), ()>)
    requires
        old(room).wf(),
    ensures
        final(room).wf(),
        forward_given(old(room)@, final(room)@, key, life, tole, tole_life, had, r is Ok),
{
    if !room.sites.contains(key) {
        if !had {
            return Err(());
        }
        room.open_site(key, life);
    }
    let r: Result<(), ()> = room.attach(key, tole, tole_life);
    prune(room, key);
    r
}

/// Lets a wake of `key` knock at `tole`, as [`forward_with`] does.
pub fn forward(
    room: &mut Room,
    key: WakeKey,
    life: usize,
    tole: usize,
    tole_life: usize,
) -> (r: Result<(), ()>)
    requires
        old(room).wf(),
    ensures
        final(room).wf(),
        forward_contract(old(room)@, final(room)@, key, life, tole, tole_life, r is Ok),
{
    let ghost v = room@;
    let had: bool = make_site_room(room, key);
    let r: Result<(), ()> = forward_with(room, key, life, tole, tole_life, had);
    assert(forward_given(v, room@, key, life, tole, tole_life, had, r is Ok));
    r
}

/// Whether `tole` is attached at the place `at`.
pub open spec fn hangs_at(fwd: Seq<(usize, usize)>, at: int, tole: usize) -> bool {
    0 <= at < fwd.len() && fwd[at].0 == tole
}

/// The room after `tole` was detached from the site of `key`.
pub open spec fn unforwarded(v: RoomView, key: WakeKey, tole: usize) -> RoomView {
    let s = v.sites[key];
    if !v.sites.contains_key(key) {
        v
    } else if !attached(s.fwd, tole) {
        pruned(v, key)
    } else {
        let at = choose|at: int| #[trigger] hangs_at(s.fwd, at, tole);
        pruned(v.set_site(key, SiteView { fwd: s.fwd.remove(at), ..s }), key)
    }
}

/// No longer lets a wake of `key` knock at `tole`.
pub fn unforward(room: &mut Room, key: WakeKey, tole: usize)
    requires
        old(room).wf(),
    ensures
        final(room).wf(),
        final(room)@ == unforwarded(old(room)@, key, tole),
{
    let ghost v = room@;
    if room.sites.contains(key) {
        proof {
            let fwd = v.sites[key].fwd;
            if attached(fwd, tole) {
                let i = choose|i: int| 0 <= i < fwd.len() && (#[trigger] fwd[i]).0 == tole;
                assert(hangs_at(fwd, i, tole));
                let at = choose|at: int| #[trigger] hangs_at(fwd, at, tole);
                assert(hangs_at(fwd, at, tole));
                assert(fwd[at].0 == tole);
            }
        }
        room.detach(key, tole);
        prune(room, key);
    }
}

/// The room after every key of `keys` has been cleared and those who waited there made
/// ready, one key after the other.
pub open spec fn swept(v: RoomView, me: usize, keys: Seq<WakeKey>) -> RoomView
    decreases keys.len(),
{
    if keys.len() == 0 {
        v
    } else {
        let w = swept(v, me, keys.drop_last());
        released_all(cleared(w, keys.last()), me, w.sites[keys.last()].line)
    }
}

/// Whether `key` is a word of `space`.
pub open spec fn in_space(key: WakeKey, space: usize) -> bool {
    key is Space && key->Space_space == space
}

/// How many wait at the sites of `keys`.
pub open spec fn line_total(v: RoomView, keys: Seq<WakeKey>) -> nat
    decreases keys.len(),
{
    if keys.len() == 0 {
        0
    } else {
        line_total(v, keys.drop_last()) + v.sites[keys.last()].line.len()
    }
}

/// What making tasks ready leaves alone, and what it does to each of them.
pub proof fn lemma_released_all(v: RoomView, me: usize, ids: Seq<usize>)
    requires
        ids.no_duplicates(),
    ensures
        ({
            let w = released_all(v, me, ids);
            &&& w.sites == v.sites
            &&& w.lives == v.lives
            &&& w.teams == v.teams
            &&& w.spaces == v.spaces
            &&& w.husks == v.husks
            &&& w.doomed == v.doomed
            &&& w.reasons == v.reasons
            &&& w.next_ticket == v.next_ticket
            &&& w.flying == v.flying.difference(ids.to_set())
            &&& forall|x: usize|
                !ids.contains(x) ==> w.tasks[x] == v.tasks[x] && (w.tasks.contains_key(x)
                    <==> v.tasks.contains_key(x))
            &&& forall|x: usize| #[trigger]
                ids.contains(x) ==> w.tasks.contains_key(x) && w.tasks[x] == (
                crate::unit::task::TaskBody { state: TaskState::Starved, ..v.tasks[x] })
        }),
    decreases ids.len(),
{
    let w = released_all(v, me, ids);
    if ids.len() == 0 {
        assert(w.flying =~= v.flying.difference(ids.to_set()));
    } else {
        let u = released(v, me, ids[0]);
        let rest = ids.drop_first();
        assert forall|x: usize| ids.contains(x) <==> x == ids[0] || rest.contains(x) by {
            if rest.contains(x) {
                let i = choose|i: int| 0 <= i < rest.len() && rest[i] == x;
                assert(ids[i + 1] == x);
            }
            if ids.contains(x) {
                let i = choose|i: int| 0 <= i < ids.len() && ids[i] == x;
                if i > 0 {
                    assert(rest[i - 1] == x);
                }
            }
        }
        assert(!rest.contains(ids[0])) by {
            if rest.contains(ids[0]) {
                let i = choose|i: int| 0 <= i < rest.len() && rest[i] == ids[0];
                assert(ids[i + 1] == ids[0]);
            }
        }
        lemma_released_all(u, me, rest);
        assert(w.flying =~= v.flying.difference(ids.to_set()));
    }
}

/// Frees everybody who waits for a word of `space`, which is about to vanish. Gives how
/// many did.
pub fn wipe_space(room: &mut Room, me: usize, space: usize) -> (woken: usize)
    requires
        old(room).wf(),
    ensures
        final(room).wf(),
        exists|keys: Seq<WakeKey>| #[trigger]
            space_keys(old(room)@, space, keys) && final(room)@ == swept(old(room)@, me, keys)
                && woken == line_total(old(room)@, keys),
        backdrop_kept(old(room)@, final(room)@),
        final(room)@.flying == old(room)@.flying,
        forall|k: WakeKey, i: int|
            old(room)@.sites.contains_key(k) && in_space(k, space) && 0 <= i < old(
                room,
            )@.sites[k].line.len() ==> off(
                old(room)@,
                final(room)@,
                #[trigger] old(room)@.sites[k].line[i],
            ),
{
    let ghost v = room@;
    let ghost mut done: Seq<WakeKey> = Seq::empty();
    let ghost mut freed: Set<usize> = Set::empty();
    let mut woken: usize = 0;
    let mut shard: usize = 0;
    let total: usize = room.tasks.len();
    proof {
        assert(v.tasks.dom() =~= room.tasks@.dom());
        site::lemma_shards();
    }
    while shard < site::SITE_SHARDS
        invariant
            room.wf(),
            v == old(room)@,
            shard <= site::SITE_SHARDS,
            total == v.tasks.dom().len(),
            v.tasks.dom().finite(),
            backdrop_kept(v, room@),
            room@.flying == v.flying,
            room@ == swept(v, me, done),
            woken == line_total(v, done),
            done.no_duplicates(),
            freed.finite(),
            freed.len() == woken,
            freed.subset_of(v.tasks.dom()),
            forall|x: usize| #[trigger]
                freed.contains(x) ==> room@.tasks[x].state == TaskState::Starved && off(v, room@, x),
            forall|x: usize| !freed.contains(x) ==> #[trigger] room@.tasks[x] == v.tasks[x],
            forall|k: WakeKey, j: int|
                done.contains(k) && 0 <= j < v.sites[k].line.len() ==> freed.contains(
                    #[trigger] v.sites[k].line[j],
                ),
            forall|k: WakeKey| #[trigger]
                done.contains(k) <==> v.sites.contains_key(k) && in_space(k, space)
                    && site::shard_of(k) < shard,
            forall|k: WakeKey| #[trigger]
                room@.sites.contains_key(k) <==> v.sites.contains_key(k) && !done.contains(k),
            forall|k: WakeKey| #[trigger]
                room@.sites.contains_key(k) ==> room@.sites[k] == v.sites[k],
        decreases site::SITE_SHARDS - shard,
    {
        let keys: Vec<WakeKey> = room.sites.keys_of(shard);
        let mut i: usize = 0;
        proof {
            assert forall|k: WakeKey| #[trigger] keys@.contains(k) <==> v.sites.contains_key(k)
                && site::shard_of(k) == shard by {
                assert(room@.sites.contains_key(k) <==> room.sites@.contains_key(k));
                if v.sites.contains_key(k) && site::shard_of(k) == shard {
                    assert(!done.contains(k));
                }
            }
        }
        while i < keys.len()
            invariant
                room.wf(),
                v == old(room)@,
                i <= keys@.len(),
                shard < site::SITE_SHARDS,
                keys@.no_duplicates(),
                forall|k: WakeKey| #[trigger]
                    keys@.contains(k) <==> v.sites.contains_key(k) && site::shard_of(k) == shard,
                total == v.tasks.dom().len(),
                v.tasks.dom().finite(),
                backdrop_kept(v, room@),
                room@.flying == v.flying,
                room@ == swept(v, me, done),
                woken == line_total(v, done),
                done.no_duplicates(),
                freed.finite(),
                freed.len() == woken,
                freed.subset_of(v.tasks.dom()),
                forall|x: usize| #[trigger]
                    freed.contains(x) ==> room@.tasks[x].state == TaskState::Starved && off(v, room@, x),
                forall|x: usize| !freed.contains(x) ==> #[trigger] room@.tasks[x] == v.tasks[x],
                forall|k: WakeKey, j: int|
                    done.contains(k) && 0 <= j < v.sites[k].line.len() ==> freed.contains(
                        #[trigger] v.sites[k].line[j],
                    ),
                forall|k: WakeKey| #[trigger]
                    done.contains(k) <==> v.sites.contains_key(k) && in_space(k, space) && (
                    site::shard_of(k) < shard || keys@.take(i as int).contains(k)),
                forall|k: WakeKey| #[trigger]
                    room@.sites.contains_key(k) <==> v.sites.contains_key(k) && !done.contains(k),
                forall|k: WakeKey| #[trigger]
                    room@.sites.contains_key(k) ==> room@.sites[k] == v.sites[k],
            decreases keys@.len() - i,
        {
            let key: WakeKey = keys[i];
            let ghost was = done;
            proof {
                assert(keys@.contains(key));
                assert(!keys@.take(i as int).contains(key)) by {
                    if keys@.take(i as int).contains(key) {
                        let j = choose|j: int|
                            0 <= j < keys@.take(i as int).len() && keys@.take(i as int)[j] == key;
                        assert(keys@[j] == key);
                    }
                }
                lemma_take_contains(keys@, i as int);
            }
            let mut hit: bool = false;
            if let WakeKey::Space { space: s, .. } = key {
                hit = s == space;
            }
            if hit {
                let ghost w = room@;
                assert(!done.contains(key));
                assert(room@.sites.contains_key(key));
                let (ids, _fwd) = clear_site(room, key);
                let ghost c = room@;
                let n: usize = unchain(room, me, &ids);
                proof {
                    lemma_released_all(c, me, ids@);
                    lemma_released_off(c, me, ids@);
                    let gone = freed;
                    assert(room@.flying =~= v.flying) by {
                        assert forall|x: usize| ids@.to_set().contains(x) implies !w.flying.contains(
                            x,
                        ) by {
                            let j = choose|j: int| 0 <= j < ids@.len() && ids@[j] == x;
                            assert(!w.flying.contains(ids@[j]));
                        }
                    }
                    done = done.push(key);
                    assert(done.drop_last() =~= was);
                    lemma_push_contains(was, key);
                    let more = ids@.to_set();
                    ids@.unique_seq_to_set();
                    assert(more.disjoint(freed)) by {
                        assert forall|x: usize| more.contains(x) implies !freed.contains(x) by {
                            let j = choose|j: int| 0 <= j < ids@.len() && ids@[j] == x;
                            assert(c.tasks[ids@[j]].state is Blocked);
                        }
                    }
                    vstd::set_lib::lemma_set_disjoint_lens(freed, more);
                    assert(freed.union(more) =~= freed + more);
                    assert(room@.tasks.dom() =~= v.tasks.dom()) by {
                        assert forall|x: usize| ids@.contains(x) implies c.tasks.contains_key(
                            x,
                        ) by {
                            let j = choose|j: int| 0 <= j < ids@.len() && ids@[j] == x;
                            assert(c.tasks.contains_key(ids@[j]));
                        }
                        assert forall|x: usize| room@.tasks.dom().contains(
                            x,
                        ) <==> v.tasks.dom().contains(x) by {
                            assert(w.tasks.contains_key(x) <==> c.tasks.contains_key(x));
                            if ids@.contains(x) {
                                assert(c.tasks.contains_key(x));
                            }
                        }
                    }
                    assert forall|x: usize| more.contains(x) implies v.tasks.dom().contains(x) by {
                        assert(ids@.contains(x));
                        assert(room@.tasks.contains_key(x));
                    }
                    vstd::set_lib::lemma_len_subset(freed + more, v.tasks.dom());
                    freed = freed + more;
                    assert forall|x: usize| #[trigger] freed.contains(x) implies room@.tasks[x].state
                        == TaskState::Starved && off(v, room@, x) by {
                        if ids@.contains(x) {
                            let j = choose|j: int| 0 <= j < ids@.len() && ids@[j] == x;
                            assert(more.contains(x) && !gone.contains(x));
                            assert(w.tasks[x] == v.tasks[x]);
                            assert(off(c, room@, ids@[j]));
                        } else {
                            assert(gone.contains(x));
                            assert(w.tasks[x] == room@.tasks[x]);
                            assert(off(v, w, x));
                        }
                    }
                    assert forall|k: WakeKey, j: int|
                        done.contains(k) && 0 <= j < v.sites[k].line.len() implies freed.contains(
                        #[trigger] v.sites[k].line[j],
                    ) by {
                        if k == key {
                            assert(ids@[j] == v.sites[k].line[j]);
                            assert(more.contains(ids@[j]));
                        } else {
                            assert(was.contains(k));
                        }
                    }
                    assert forall|x: usize| !freed.contains(x) implies #[trigger] room@.tasks[x]
                        == v.tasks[x] by {
                        assert(!ids@.contains(x)) by {
                            if ids@.contains(x) {
                                assert(more.contains(x));
                            }
                        }
                        assert(w.tasks[x] == v.tasks[x]);
                    }
                }
                woken += n;
            }
            i += 1;
        }
        proof {
            assert(keys@.take(i as int) =~= keys@);
            assert forall|k: WakeKey| #[trigger] done.contains(k) <==> v.sites.contains_key(k)
                && in_space(k, space) && site::shard_of(k) < shard + 1 by {
                assert(keys@.contains(k) <==> v.sites.contains_key(k) && site::shard_of(k)
                    == shard);
            }
        }
        shard += 1;
    }
    proof {
        assert(space_keys(v, space, done)) by {
            site::lemma_shards();
        }
        assert forall|k: WakeKey, i: int|
            v.sites.contains_key(k) && in_space(k, space) && 0 <= i
                < v.sites[k].line.len() implies off(v, room@, #[trigger] v.sites[k].line[i]) by {
            assert(done.contains(k));
            assert(freed.contains(v.sites[k].line[i]));
        }
    }
    woken
}

/// Whether `keys` are the words of `space` that have a site, each once.
pub open spec fn space_keys(v: RoomView, space: usize, keys: Seq<WakeKey>) -> bool {
    &&& keys.no_duplicates()
    &&& forall|k: WakeKey| #[trigger]
        keys.contains(k) <==> v.sites.contains_key(k) && in_space(k, space)
}

proof fn lemma_take_contains(s: Seq<WakeKey>, n: int)
    requires
        0 <= n < s.len(),
    ensures
        forall|k: WakeKey| #[trigger]
            s.take(n + 1).contains(k) <==> s.take(n).contains(k) || k == s[n],
{
    assert(s.take(n + 1) =~= s.take(n).push(s[n]));
    lemma_push_contains(s.take(n), s[n]);
}

proof fn lemma_push_contains(s: Seq<WakeKey>, x: WakeKey)
    ensures
        forall|k: WakeKey| #[trigger] s.push(x).contains(k) <==> s.contains(k) || k == x,
{
    assert forall|k: WakeKey| #[trigger] s.push(x).contains(k) <==> s.contains(k) || k == x by {
        if s.contains(k) {
            let i = choose|i: int| 0 <= i < s.len() && s[i] == k;
            assert(s.push(x)[i] == k);
        }
        if k == x {
            assert(s.push(x)[s.len() as int] == k);
        }
    }
}

/// The room right after `key` was woken: the first of the line has left it, or a beacon
/// stands where nobody waits. A site that is not there is made for the beacon if there
/// was memory (`had`).
pub open spec fn touched(v: RoomView, key: WakeKey, life: usize, had: bool) -> RoomView {
    if v.sites.contains_key(key) {
        if v.sites[key].line.len() > 0 {
            v.popped(key)
        } else {
            v.set_site(key, SiteView { pend: true, ..v.sites[key] })
        }
    } else if had {
        v.set_site(key, SiteView { pend: true, ..fresh_site(life) })
    } else {
        v
    }
}

/// The toles to knock at when `key` is woken.
pub open spec fn toles_at(v: RoomView, key: WakeKey) -> Seq<(usize, usize)> {
    if v.sites.contains_key(key) {
        v.sites[key].fwd
    } else {
        Seq::empty()
    }
}

/// The room after `key`, which depends on `life`, was woken. Where `life` has ended, the
/// site goes. Otherwise its toles are knocked at, and the task that waited first, if any
/// did, is made ready.
pub open spec fn woken(
    v: RoomView,
    me: usize,
    key: WakeKey,
    life: usize,
    had: bool,
    hads: Seq<bool>,
) -> RoomView {
    if !v.alive(life) {
        RoomView { sites: v.sites.remove(key), ..v }
    } else {
        let t = touched(v, key, life, had);
        let k = knocked_all(pruned(t, key), me, toles_at(v, key), hads);
        if someone_waits(v, key) {
            released(k, me, v.sites[key].line[0])
        } else {
            k
        }
    }
}

/// Whether somebody waits for `key`.
pub open spec fn someone_waits(v: RoomView, key: WakeKey) -> bool {
    v.sites.contains_key(key) && v.sites[key].line.len() > 0
}

/// Whether whoever waits after something has happened waited before, at the same site.
pub open spec fn quieter(v: RoomView, w: RoomView) -> bool {
    forall|k: WakeKey| #[trigger]
        someone_waits(w, k) ==> someone_waits(v, k) && w.sites[k].life == v.sites[k].life
}

proof fn lemma_knocks_quiet(v: RoomView, me: usize, fwd: Seq<(usize, usize)>, hads: Seq<bool>)
    ensures
        quieter(v, knocked_all(v, me, fwd, hads)),
    decreases fwd.len(),
{
    if fwd.len() > 0 {
        let w = knocked(v, me, WakeKey::Tole { id: fwd[0].0 }, fwd[0].1, hads[0]);
        assert(quieter(v, w));
        lemma_knocks_quiet(w, me, fwd.drop_first(), hads.drop_first());
    }
}

proof fn lemma_released_sites(v: RoomView, me: usize, ids: Seq<usize>)
    ensures
        released_all(v, me, ids).sites == v.sites,
    decreases ids.len(),
{
    if ids.len() > 0 {
        lemma_released_sites(released(v, me, ids[0]), me, ids.drop_first());
    }
}

/// Nobody comes to wait when `key` is wiped, and nobody waits for `key` then.
pub proof fn lemma_wipe_quiet(v: RoomView, me: usize, key: WakeKey, hads: Seq<bool>)
    ensures
        quieter(v, wiped(v, me, key, hads)),
        !someone_waits(wiped(v, me, key, hads), key),
{
    if v.sites.contains_key(key) {
        let c = cleared(v, key);
        let fwd = v.sites[key].fwd;
        lemma_knocks_quiet(c, me, fwd, hads);
        let k = knocked_all(c, me, fwd, hads);
        lemma_released_sites(k, me, v.sites[key].line);
        let w = wiped(v, me, key, hads);
        assert(w.sites == k.sites);
        assert forall|x: WakeKey| #[trigger] someone_waits(w, x) implies someone_waits(v, x)
            && w.sites[x].life == v.sites[x].life && x != key by {
            assert(someone_waits(k, x));
            assert(someone_waits(c, x));
        }
    }
}

/// Nobody comes to wait when a tole is told of `key` no longer.
pub proof fn lemma_unforward_quiet(v: RoomView, key: WakeKey, tole: usize)
    ensures
        quieter(v, unforwarded(v, key, tole)),
{
}

/// The toles that hang at `key`.
fn toles(room: &Room, key: WakeKey) -> (fwd: Vec<(usize, usize)>)
    requires
        room.wf(),
    ensures
        fwd@ == toles_at(room@, key),
{
    match room.sites.get(key) {
        Some(site) => {
            assert(room@.sites[key] == site.held());
            site.fwd.entries()
        },
        None => {
            let fwd: Vec<(usize, usize)> = Vec::new();
            assert(fwd@ =~= toles_at(room@, key));
            fwd
        },
    }
}

/// Takes the first task out of the line at `key`, or leaves a beacon where nobody waits. A
/// site that is not there is made for it where there is memory (`had`).
pub fn touch(room: &mut Room, key: WakeKey, life: usize, had: bool) -> (id: Option<usize>)
    requires
        old(room).wf(),
    ensures
        final(room).wf(),
        final(room)@ == touched(old(room)@, key, life, had),
        id is Some <==> someone_waits(old(room)@, key),
        id matches Some(x) ==> {
            &&& x == old(room)@.sites[key].line[0]
            &&& final(room)@.flying.contains(x)
            &&& final(room)@.tasks.contains_key(x)
            &&& final(room)@.tasks[x].state is Blocked
        },
{
    let ghost v = room@;
    if room.sites.contains(key) {
        let popped: Option<usize> = room.site_pop(key);
        if popped.is_none() {
            room.set_pend(key, true);
        }
        assert(room@ =~= touched(v, key, life, had));
        return popped;
    }
    if had {
        room.open_site(key, life);
        room.set_pend(key, true);
        assert(room@.sites =~= v.sites.insert(key, SiteView { pend: true, ..fresh_site(life) }));
    }
    assert(room@ =~= touched(v, key, life, had));
    None
}

/// Wakes `key`, which depends on `life`. Gives whether a task was waiting for it.
///
/// Nobody may wait at a key whose life has ended.
pub fn wake(room: &mut Room, me: usize, key: WakeKey, life: usize) -> (hit: bool)
    requires
        old(room).wf(),
        !old(room)@.alive(life) ==> !someone_waits(old(room)@, key),
    ensures
        final(room).wf(),
        hit == (old(room)@.alive(life) && someone_waits(old(room)@, key)),
        exists|had: bool, hads: Seq<bool>|
            final(room)@ == #[trigger] woken(old(room)@, me, key, life, had, hads) && (old(
                room,
            )@.alive(life) ==> hads.len() == toles_at(old(room)@, key).len()),
        slots_kept(old(room)@, final(room)@),
        hit ==> off(old(room)@, final(room)@, old(room)@.sites[key].line[0]),
{
    let ghost v = room@;
    if !room.lives.contains(life) {
        room.drop_site(key);
        assert(room@ == woken(v, me, key, life, true, Seq::empty()));
        return false;
    }
    let fwd: Vec<(usize, usize)> = toles(room, key);
    let had: bool = make_site_room(room, key);
    let popped: Option<usize> = touch(room, key, life, had);
    prune(room, key);
    let hads: Vec<bool> = knock_all(room, me, &fwd);
    match popped {
        None => {
            assert(room@ == woken(v, me, key, life, had, hads@));
            false
        },
        Some(id) => {
            release(room, me, id);
            assert(room@ == woken(v, me, key, life, had, hads@));
            true
        },
    }
}

/// The first of `line` that waits under `ticket`.
pub open spec fn first_under(
    tasks: Map<usize, crate::unit::task::TaskBody>,
    line: Seq<usize>,
    ticket: u64,
) -> Option<usize>
    decreases line.len(),
{
    if line.len() == 0 {
        None
    } else if tasks[line[0]].state->ticket == ticket {
        Some(line[0])
    } else {
        first_under(tasks, line.drop_first(), ticket)
    }
}

/// Finds the task that waits for `key` under `ticket`.
fn find_ticket(room: &Room, key: WakeKey, ticket: u64) -> (id: Option<usize>)
    requires
        room.wf(),
    ensures
        id == (if room@.sites.contains_key(key) {
            first_under(room@.tasks, room@.sites[key].line, ticket)
        } else {
            None
        }),
        id is Some ==> room@.sites.contains_key(key) && room@.sites[key].line.contains(id->0),
{
    match room.sites.get(key) {
        None => None,
        Some(site) => {
            assert(room@.sites[key] == site.held());
            proof {
                site.chain.lemma_members(room.tasks@);
            }
            let line: Vec<usize> = site.chain.ids(&room.tasks);
            let mut i: usize = 0;
            assert(line@.skip(0) =~= line@);
            while i < line.len()
                invariant
                    room.wf(),
                    i <= line@.len(),
                    line@ == site.chain.order(),
                    room.sites@.contains_key(key),
                    *site == room.sites@[key],
                    forall|j: int|
                        0 <= j < line@.len() ==> room.tasks@.contains_key(#[trigger] line@[j]),
                    first_under(room@.tasks, line@.skip(i as int), ticket) == first_under(
                        room@.tasks,
                        line@,
                        ticket,
                    ),
                decreases line@.len() - i,
            {
                let id: usize = line[i];
                assert(line@.skip(i as int)[0] == id);
                assert(line@.skip(i as int).drop_first() =~= line@.skip(i + 1));
                match room.tasks.get(id) {
                    Some(t) => {
                        assert(room@.tasks[id] == t.body());
                        assert(crate::room::messenger::wait::site::waits_at(
                            room.tasks@[site.chain.order()[i as int]],
                            key,
                        ));
                        if let TaskState::Blocked { ticket: mine, .. } = t.state {
                            if mine == ticket {
                                assert(line@.contains(id));
                                return Some(id);
                            }
                        }
                    },
                    None => {},
                }
                i += 1;
            }
            None
        },
    }
}

/// The room after the deadline of `ticket` has passed, and the task that it took out of
/// its line, if the task was still there.
pub open spec fn claim(v: RoomView, ticket: u64) -> (RoomView, Option<usize>) {
    let w = voided(v, ticket);
    match holder_of(v, ticket) {
        None => (w, None),
        Some((key, _)) => {
            let id = if w.sites.contains_key(key) {
                first_under(w.tasks, w.sites[key].line, ticket)
            } else {
                None
            };
            match id {
                None => (pruned(w, key), None),
                Some(id) => (pruned(w.plucked(key, id), key), Some(id)),
            }
        },
    }
}

/// The room after the deadlines of all of `due` have passed, and the tasks taken out.
pub open spec fn claims(v: RoomView, due: Seq<u64>) -> (RoomView, Seq<usize>)
    decreases due.len(),
{
    if due.len() == 0 {
        (v, Seq::empty())
    } else {
        let (w, ids) = claims(v, due.drop_last());
        let (u, id) = claim(w, due.last());
        (
            u,
            match id {
                None => ids,
                Some(id) => ids.push(id),
            },
        )
    }
}

/// The deadlines of `due` have passed: every task that still waits under one of these
/// tickets is made ready. Gives whether there was any.
pub fn redeem_all(room: &mut Room, me: usize, due: &Vec<u64>) -> (any: bool)
    requires
        old(room).wf(),
    ensures
        final(room).wf(),
        final(room)@ == risen_all(
            claims(old(room)@, due@).0,
            me,
            claims(old(room)@, due@).1,
        ),
        any == (claims(old(room)@, due@).1.len() > 0),
        slots_kept(old(room)@, final(room)@),
{
    let ghost v = room@;
    let mut ids: Vec<usize> = Vec::new();
    let mut i: usize = 0;
    assert(due@.take(0) =~= Seq::<u64>::empty());
    while i < due.len()
        invariant
            room.wf(),
            v == old(room)@,
            i <= due@.len(),
            (room@, ids@) == claims(v, due@.take(i as int)),
            room@.lanes == v.lanes,
            ids@.no_duplicates(),
            forall|j: int| 0 <= j < ids@.len() ==> room@.flying.contains(#[trigger] ids@[j]),
        decreases due@.len() - i,
    {
        let ghost here = room@;
        let ghost was = ids@;
        let ticket: u64 = due[i];
        match void(room, Ticket(ticket)) {
            None => {},
            Some((key, _)) => {
                match find_ticket(room, key, ticket) {
                    Some(id) => {
                        assert(!room@.flying.contains(id)) by {
                            lemma_line_not_flying(*room, key, id);
                        }
                        room.site_remove(key, id);
                        ids.push(id);
                        proof {
                            assert forall|a: int, b: int|
                                0 <= a < b < ids@.len() implies ids@[a] != ids@[b] by {
                                if b == was.len() {
                                    assert(here.flying.contains(was[a]));
                                }
                            }
                        }
                    },
                    None => {},
                }
                prune(room, key);
            },
        }
        proof {
            assert(due@.take(i + 1).drop_last() =~= due@.take(i as int));
            assert(due@.take(i + 1).last() == ticket);
            assert(claims(v, due@.take(i + 1)) == (room@, ids@));
        }
        i += 1;
    }
    assert(due@.take(i as int) =~= due@);
    rise(room, me, &ids) > 0
}

/// The clock stands at `now`: the tasks that still wait under a deadline that has passed are
/// made ready, the earliest first, for the first [`clock::MAX_DUE`] such deadlines; the others
/// are left to the next call. Gives whether there was any.
pub fn redeem(room: &mut Room, me: usize, now: u64) -> (any: bool)
    requires
        old(room).wf(),
    ensures
        final(room).wf(),
        passed(old(room)@.clock, now, due_of(old(room)@.clock, now)),
        final(room)@ == risen_all(
            claims(old(room)@, batch_of(old(room)@.clock, now)).0,
            me,
            claims(old(room)@, batch_of(old(room)@.clock, now)).1,
        ),
        any == (claims(old(room)@, batch_of(old(room)@.clock, now)).1.len() > 0),
        slots_kept(old(room)@, final(room)@),
{
    let list: Vec<u64> = drain(room, now);
    redeem_all(room, me, &list)
}

/// A task in a line is not in flight.
proof fn lemma_line_not_flying(room: Room, key: WakeKey, id: usize)
    requires
        room.wf(),
        room@.sites.contains_key(key),
        room@.sites[key].line.contains(id),
    ensures
        !room@.flying.contains(id),
        room@.tasks.contains_key(id),
{
    room.sites@[key].chain.lemma_members(room.tasks@);
    assert(room.sites@[key].chain.order().contains(id));
}

/// The room with a site at `key`.
pub open spec fn sited(v: RoomView, key: WakeKey, life: usize) -> RoomView {
    if v.sites.contains_key(key) {
        v
    } else {
        v.set_site(key, fresh_site(life))
    }
}

/// The deadline of a wait that begins `now` and takes `dur` ticks, under the next ticket.
pub open spec fn deadline_of(v: RoomView, now: u64, dur: Option<u64>) -> Option<Tock> {
    match dur {
        Some(d) => Some(Tock { handle: v.next_ticket, at: (now + d) as u64 }),
        None => None,
    }
}

/// The deadline of a wait that begins `now` and takes `dur` ticks; `None` where the wait takes
/// as long as it takes.
pub fn deadline(room: &Room, now: u64, dur: Option<u64>) -> (t: Option<Tock>)
    requires
        dur matches Some(d) ==> now + d <= u64::MAX,
    ensures
        t == deadline_of(room@, now, dur),
{
    match dur {
        Some(d) => Some(Tock { handle: room.next_ticket, at: now + d }),
        None => None,
    }
}

/// The room with the next ticket taken.
pub open spec fn drawn(v: RoomView) -> RoomView {
    RoomView { next_ticket: v.next_ticket.wrapping_add(1), ..v }
}

/// The room with the next ticket taken, and registered for `id` where there is a deadline.
pub open spec fn registered(
    v: RoomView,
    key: WakeKey,
    id: usize,
    tock: Option<Tock>,
) -> RoomView {
    match tock {
        Some(t) => RoomView { holders: v.holders.insert(t.handle, (key, id)), ..drawn(v) },
        None => drawn(v),
    }
}

/// The room with the next ticket taken, registered for `id` where there is a deadline, and
/// with the deadline in the clock.
pub open spec fn ticketed(
    v: RoomView,
    key: WakeKey,
    id: usize,
    tock: Option<Tock>,
) -> RoomView {
    match tock {
        Some(t) => RoomView {
            clock: v.clock.insert(t.handle, t.at),
            ..registered(v, key, id, tock)
        },
        None => drawn(v),
    }
}

/// Whether a task that has come to wait at `key` stays there: the site is alive and no
/// beacon stands at it.
pub open spec fn stays(v: RoomView, key: WakeKey) -> bool {
    v.sites.contains_key(key) && v.alive(v.sites[key].life) && !v.sites[key].pend
}

/// The room after the task `id`, blocked and in flight, has come to its site: it stands
/// last in line, or is ready again at once.
pub open spec fn lined_up(v: RoomView, me: usize, key: WakeKey, id: usize) -> RoomView {
    let s = v.sites[key];
    if stays(v, key) {
        RoomView {
            flying: v.flying.remove(id),
            ..v.set_site(key, SiteView { line: s.line.push(id), ..s })
        }
    } else {
        let w = if v.sites.contains_key(key) && v.alive(s.life) && s.pend {
            v.set_site(key, SiteView { pend: false, ..s })
        } else {
            v
        };
        released(pruned(w, key), me, id)
    }
}

/// The room after the running task of hart `me` has gone to wait for `key`.
pub open spec fn gone_to_wait(
    v: RoomView,
    me: usize,
    key: WakeKey,
    life: usize,
    tock: Option<Tock>,
) -> RoomView {
    let id = v.lanes[me as int].running->0;
    let w = ticketed(sited(v, key, life), key, id, tock).swapped_out(me as int).set_state(
        id,
        TaskState::Blocked { key, ticket: v.next_ticket },
    );
    lined_up(w, me, key, id)
}

/// What becomes of hart `me` once its running task has left.
pub open spec fn handed_on(v: RoomView, me: usize) -> Handoff<()> {
    match v.next_frame(me as int) {
        Some(pa) => Handoff::Switch(pa),
        None => Handoff::Idle,
    }
}

/// What [`block_with`] promises.
pub open spec fn block_given(
    v: RoomView,
    w: RoomView,
    me: usize,
    key: WakeKey,
    life: usize,
    dur: Option<u64>,
    now: u64,
    space: bool,
    slot: bool,
    armed: bool,
    r: Result<Handoff<()>, GateError>,
) -> bool {
    let running = v.lanes[me as int].running;
    if beacon_at(v, key) {
        r == Ok::<Handoff<()>, GateError>(Handoff::Resume(())) && w == beacon_taken(v, key)
    } else if running is None {
        r == Err::<Handoff<()>, GateError>(GateError::Busy) && w == v
    } else if v.doomed.contains_key(running->0) {
        r == Ok::<Handoff<()>, GateError>(Handoff::Quit) && w == (RoomView {
            reasons: v.reasons.update(reason_slot(me), v.doomed[running->0]),
            ..undoomed(v, running->0)
        })
    } else if !v.sites.contains_key(key) && !space {
        r == Err::<Handoff<()>, GateError>(GateError::OoM) && w == v
    } else if dur is Some && !slot {
        r == Err::<Handoff<()>, GateError>(GateError::OoM) && w == drawn(sited(v, key, life))
    } else if dur is Some && !armed {
        r == Err::<Handoff<()>, GateError>(GateError::OoM) && w == voided(
            registered(sited(v, key, life), key, running->0, deadline_of(v, now, dur)),
            v.next_ticket,
        )
    } else {
        r == Ok::<Handoff<()>, GateError>(handed_on(v, me)) && w == gone_to_wait(
            v,
            me,
            key,
            life,
            deadline_of(v, now, dur),
        )
    }
}

/// What [`block`] promises, whether there was memory for the site, for the ticket and for the
/// clock's entry or not.
pub open spec fn block_contract(
    v: RoomView,
    w: RoomView,
    me: usize,
    key: WakeKey,
    life: usize,
    dur: Option<u64>,
    now: u64,
    r: Result<Handoff<()>, GateError>,
) -> bool {
    exists|space: bool, slot: bool, armed: bool| #[trigger]
        block_given(v, w, me, key, life, dur, now, space, slot, armed, r)
}

/// The running task of hart `me` asks to wait for `key`, which depends on `life`, until
/// `dur` ticks from `now` have passed; without `dur` it waits as long as it takes. `space`
/// says whether there is memory for the site, `slot` whether there is for the ticket, and
/// `armed` whether the clock takes the deadline. The ticket is registered before the clock is
/// asked; where the clock refuses, the registration goes again.
///
/// A beacon lets it go on at once, whoever asks. Without a running task the hart is busy
/// with something else. A task that is to stop does so here. Otherwise it leaves the hart
/// and stands in line, unless the site died meanwhile; there may also be no memory for
/// the site or the ticket, or no place in the clock.
pub fn block_with(
    room: &mut Room,
    me: usize,
    key: WakeKey,
    life: usize,
    dur: Option<u64>,
    now: u64,
    space: bool,
    slot: bool,
    armed: bool,
) -> (r: Result<Handoff<()>, GateError>)
    requires
        old(room).wf(),
        me < old(room).lanes@.len(),
        dur matches Some(d) ==> now + d <= u64::MAX,
    ensures
        final(room).wf(),
        block_given(old(room)@, final(room)@, me, key, life, dur, now, space, slot, armed, r),
{
    let ghost v = room@;
    if take_beacon(room, key) {
        return Ok(Handoff::Resume(()));
    }
    assert(room@.lanes.len() == v.lanes.len() && room@.lanes.len() == room.lanes@.len());
    let id: usize = match room.lanes[me].running_task() {
        None => {
            return Err(GateError::Busy);
        },
        Some(id) => id,
    };
    if let Some(reason) = take_doomed(room, id) {
        set_exit_reason(room, me, reason);
        return Ok(Handoff::Quit);
    }
    if !room.sites.contains(key) {
        if !space {
            return Err(GateError::OoM);
        }
        room.open_site(key, life);
    }
    let tock: Option<Tock> = deadline(room, now, dur);
    let ticket: Ticket = Ticket::allocate(room);
    if let Some(t) = tock {
        if !slot {
            return Err(GateError::OoM);
        }
        hold(room, ticket, key, id);
        if !armed {
            void(room, ticket);
            return Err(GateError::OoM);
        }
        arm(room, ticket, t.at);
    }
    let ghost t = room@;
    assert(t == ticketed(sited(v, key, life), key, id, deadline_of(v, now, dur)));
    let (task, next_pa) = room.swap(me);
    room.transform(task, TaskState::Blocked { key, ticket: ticket.raw() });
    let ghost w = room@;
    let mut queued: bool = false;
    let mut ends: bool = false;
    let mut pend: bool = false;
    match room.sites.get(key) {
        None => {},
        Some(site) => {
            assert(w.sites[key] == site.held());
            if !room.lives.contains(site.life) {
                ends = true;
            } else if site.pend {
                pend = true;
            } else {
                queued = true;
            }
        },
    }
    if queued {
        room.site_push(key, task);
    } else if pend {
        room.set_pend(key, false);
    }
    prune(room, key);
    if !queued {
        release(room, me, task);
    }
    proof {
        assert(queued == stays(w, key));
        if queued {
            assert(!prunable(
                RoomView {
                    flying: w.flying.remove(id),
                    ..w.set_site(
                        key,
                        SiteView { line: w.sites[key].line.push(id), ..w.sites[key] },
                    )
                },
                key,
            ));
        }
        assert(room@ == lined_up(w, me, key, id));
    }
    match next_pa {
        Some(pa) => Ok(Handoff::Switch(pa)),
        None => Ok(Handoff::Idle),
    }
}

/// The running task of hart `me` asks to wait for `key`, as [`block_with`] describes it.
pub fn block(
    room: &mut Room,
    me: usize,
    key: WakeKey,
    life: usize,
    dur: Option<u64>,
    now: u64,
) -> (r: Result<Handoff<()>, GateError>)
    requires
        old(room).wf(),
        me < old(room).lanes@.len(),
        dur matches Some(d) ==> now + d <= u64::MAX,
    ensures
        final(room).wf(),
        block_contract(old(room)@, final(room)@, me, key, life, dur, now, r),
{
    let ghost v = room@;
    let mut space: bool = true;
    let mut slot: bool = true;
    let mut armed: bool = true;
    if room.lanes[me].running_task().is_some() {
        space = make_site_room(room, key);
        if space && dur.is_some() {
            slot = make_room(room);
            if slot {
                armed = make_clock_room(room);
            }
        }
    }
    let r: Result<Handoff<()>, GateError> = block_with(
        room,
        me,
        key,
        life,
        dur,
        now,
        space,
        slot,
        armed,
    );
    assert(block_given(v, room@, me, key, life, dur, now, space, slot, armed, r));
    r
}

/// The running task of hart `me` waits for `key`; see [`block`].
pub fn wait(
    room: &mut Room,
    me: usize,
    key: WakeKey,
    life: usize,
    dur: Option<u64>,
    now: u64,
) -> (r: Result<Handoff<()>, GateError>)
    requires
        old(room).wf(),
        me < old(room).lanes@.len(),
        dur matches Some(d) ==> now + d <= u64::MAX,
    ensures
        final(room).wf(),
        block_contract(old(room)@, final(room)@, me, key, life, dur, now, r),
{
    block(room, me, key, life, dur, now)
}

/// The running task of hart `me` sleeps for `dur` ticks. Nobody ever leaves a beacon at
/// an alarm. With no running task the hart fetches work.
pub fn park(
    room: &mut Room,
    me: usize,
    life: usize,
    dur: Option<u64>,
    now: u64,
) -> (r: Result<Handoff<()>, GateError>)
    requires
        old(room).wf(),
        me < old(room).lanes@.len(),
        dur matches Some(d) ==> now + d <= u64::MAX,
        old(room)@.lanes[me as int].running is Some ==> !beacon_at(
            old(room)@,
            WakeKey::Alarm { task: old(room)@.lanes[me as int].running->0 },
        ),
    ensures
        final(room).wf(),
        old(room)@.lanes[me as int].running is None ==> r == Ok::<Handoff<()>, GateError>(
            Handoff::Idle,
        ) && final(room)@ == old(room)@,
        old(room)@.lanes[me as int].running is Some ==> block_contract(
            old(room)@,
            final(room)@,
            me,
            WakeKey::Alarm { task: old(room)@.lanes[me as int].running->0 },
            life,
            dur,
            now,
            r,
        ),
        !(r matches Ok(Handoff::Resume(_))),
{
    match room.lanes[me].running_task() {
        None => Ok(Handoff::Idle),
        Some(id) => block(room, me, WakeKey::Alarm { task: id }, life, dur, now),
    }
}

/// `r` with `true` for the answer of a task that goes on at once.
pub open spec fn answered(r: Result<Handoff<()>, GateError>) -> Result<Handoff<bool>, GateError> {
    match r {
        Ok(Handoff::Resume(_)) => Ok(Handoff::Resume(true)),
        Ok(Handoff::Switch(pa)) => Ok(Handoff::Switch(pa)),
        Ok(Handoff::Idle) => Ok(Handoff::Idle),
        Ok(Handoff::Quit) => Ok(Handoff::Quit),
        Err(e) => Err(e),
    }
}

fn answer(r: Result<Handoff<()>, GateError>) -> (a: Result<Handoff<bool>, GateError>)
    ensures
        a == answered(r),
{
    match r {
        Ok(Handoff::Resume(_)) => Ok(Handoff::Resume(true)),
        Ok(Handoff::Switch(pa)) => Ok(Handoff::Switch(pa)),
        Ok(Handoff::Idle) => Ok(Handoff::Idle),
        Ok(Handoff::Quit) => Ok(Handoff::Quit),
        Err(e) => Err(e),
    }
}

/// The task `task` waits for a change of its own pies.
pub fn fall(
    room: &mut Room,
    me: usize,
    task: usize,
    life: usize,
    dur: Option<u64>,
    now: u64,
) -> (r: Result<Handoff<bool>, GateError>)
    requires
        old(room).wf(),
        me < old(room).lanes@.len(),
        dur matches Some(d) ==> now + d <= u64::MAX,
    ensures
        final(room).wf(),
        exists|b: Result<Handoff<()>, GateError>| #[trigger]
            block_contract(
                old(room)@,
                final(room)@,
                me,
                WakeKey::Pies { task },
                life,
                dur,
                now,
                b,
            ) && r == answered(b),
{
    let b: Result<Handoff<()>, GateError> = block(
        room,
        me,
        WakeKey::Pies { task },
        life,
        dur,
        now,
    );
    answer(b)
}

/// The running task of hart `me` waits for the end of `task`. One that has ended answers
/// at once; with no time to wait the answer is that it has not.
pub fn join(
    room: &mut Room,
    me: usize,
    task: usize,
    life: usize,
    reaped: bool,
    dur: Option<u64>,
    now: u64,
) -> (r: Result<Handoff<bool>, GateError>)
    requires
        old(room).wf(),
        me < old(room).lanes@.len(),
        dur matches Some(d) ==> now + d <= u64::MAX,
    ensures
        final(room).wf(),
        reaped ==> r == Ok::<Handoff<bool>, GateError>(Handoff::Resume(true)) && final(room)@
            == old(room)@,
        !reaped && dur == Some(0u64) ==> r == Ok::<Handoff<bool>, GateError>(
            Handoff::Resume(false),
        ) && final(room)@ == old(room)@,
        !reaped && dur != Some(0u64) ==> exists|b: Result<Handoff<()>, GateError>| #[trigger]
            block_contract(
                old(room)@,
                final(room)@,
                me,
                WakeKey::Task { id: task },
                life,
                dur,
                now,
                b,
            ) && r == answered(b),
{
    if reaped {
        return Ok(Handoff::Resume(true));
    }
    if let Some(ticks) = dur {
        if ticks == 0 {
            return Ok(Handoff::Resume(false));
        }
    }
    let b: Result<Handoff<()>, GateError> = block(
        room,
        me,
        WakeKey::Task { id: task },
        life,
        dur,
        now,
    );
    answer(b)
}

} // verus!
