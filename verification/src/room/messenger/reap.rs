//! The end of a task: it quits, its last rites are held, and it is cleared away.
//!
//! A task that quits or was stopped is [`TaskState::Doomed`]. The host runs the exit hooks
//! on it, one after the other; then [`reap`] makes it [`TaskState::Reaped`] and puts it
//! among the husks. There is no other way to that state, so a task that has it has had its
//! last rites. [`bury`] clears the husks away before a hart takes on new work. What they held
//! of their address spaces the host gives back, and only then does [`give_back`] count them:
//! who counts a task as gone can rely on it that nothing of it is left.
use vstd::prelude::*;
use crate::room::{Room, RoomView, TeamView};
use crate::room::conductor;
use crate::room::conductor::Score;
use crate::room::messenger::{reason_slot, take_exit_reason};
use crate::room::count::lemma_cleared_people;
use crate::room::messenger::doom::living;
use crate::room::messenger::wait::{wipe, wipe_space};
use crate::room::messenger::wait::{space_keys, swept, wiped};
use crate::room::messenger::wait::holder::lemma_same_floor;
use crate::room::messenger::wait::site::WakeKey;
use crate::unit::task::{Place, Span, TaskBody, TaskState};

verus! {

/// The exit hooks.
pub struct Rites {
    pub hooks: Option<Vec<usize>>,
}

/// Sets the exit hooks. Only the first call counts.
pub fn hook(rites: &mut Rites, hooks: Vec<usize>)
    ensures
        old(rites).hooks is None ==> final(rites).hooks == Some(hooks),
        old(rites).hooks is Some ==> *final(rites) == *old(rites),
{
    if rites.hooks.is_none() {
        rites.hooks = Some(hooks);
    }
}

/// The calls that the host makes for the last rites of `tid`: each hook, in order, on
/// that task. One whose last rites were held has none.
pub fn hooked(rites: &Rites, room: &Room, tid: usize) -> (calls: Vec<(usize, usize)>)
    requires
        room@.tasks.contains_key(tid),
    ensures
        room@.tasks[tid].state is Reaped ==> calls@.len() == 0,
        rites.hooks is None ==> calls@.len() == 0,
        !(room@.tasks[tid].state is Reaped) ==> (rites.hooks matches Some(hooks) ==> calls@
            == Seq::new(hooks@.len(), |i: int| (hooks@[i], tid))),
{
    let mut calls: Vec<(usize, usize)> = Vec::new();
    match room.tasks.get(tid) {
        Some(t) => {
            assert(room@.tasks[tid] == t.body());
            if let TaskState::Reaped = t.state {
                return calls;
            }
        },
        None => {},
    }
    match &rites.hooks {
        None => {},
        Some(hooks) => {
            let mut i: usize = 0;
            while i < hooks.len()
                invariant
                    i <= hooks@.len(),
                    calls@ == Seq::new(i as nat, |j: int| (hooks@[j], tid)),
                decreases hooks@.len() - i,
            {
                calls.push((hooks[i], tid));
                i += 1;
                assert(calls@ =~= Seq::new(i as nat, |j: int| (hooks@[j], tid)));
            }
        },
    }
    calls
}

/// The room after the last rites of `tid` were held.
pub open spec fn reaped(v: RoomView, tid: usize) -> RoomView {
    if v.tasks[tid].state is Reaped {
        v
    } else {
        RoomView {
            flying: v.flying.remove(tid),
            husks: v.husks.push(tid),
            ..v.set_state(tid, TaskState::Reaped)
        }
    }
}

/// The last rites of `tid`, doomed and in flight, have been held: it is among the husks.
/// Nothing happens where it was already.
pub fn reap(room: &mut Room, tid: usize)
    requires
        old(room).wf(),
        old(room)@.tasks.contains_key(tid),
        old(room)@.tasks[tid].state is Reaped || (old(room)@.flying.contains(tid)
            && old(room)@.tasks[tid].state is Doomed),
    ensures
        final(room).wf(),
        final(room)@ == reaped(old(room)@, tid),
        old(room)@.settled() ==> final(room)@.settled(),
{
    let mut over: bool = false;
    match room.tasks.get(tid) {
        Some(t) => {
            assert(room@.tasks[tid] == t.body());
            if let TaskState::Reaped = t.state {
                over = true;
            }
        },
        None => {},
    }
    if over {
        return;
    }
    room.transform(tid, TaskState::Reaped);
    room.husk_push(tid);
}

/// A task that quits: who, and the reason left for it.
#[derive(Clone, Copy, Debug, PartialEq, Eq, Structural)]
pub struct Leaving {
    pub tid: usize,
    pub reason: usize,
}

/// The room after the running task of hart `me` has quit: the next one runs, and it is
/// doomed and in flight.
pub open spec fn departed(v: RoomView, me: usize) -> RoomView {
    RoomView {
        reasons: v.reasons.update(reason_slot(me), 0),
        ..v.swapped_out(me as int).set_state(v.lanes[me as int].running->0, TaskState::Doomed)
    }
}

/// Who leaves when the running task of hart `me` quits, and with which reason.
pub open spec fn leaving_of(v: RoomView, me: usize) -> Leaving {
    Leaving { tid: v.lanes[me as int].running->0, reason: v.reasons[reason_slot(me)] }
}

/// The running task of hart `me` quits. The host holds its last rites and then calls
/// [`settle`].
pub fn quit(room: &mut Room, me: usize) -> (l: Leaving)
    requires
        old(room).wf(),
        old(room)@.settled(),
        me < old(room).lanes@.len(),
        old(room)@.lanes[me as int].running is Some,
    ensures
        final(room).wf(),
        final(room)@.settled(),
        final(room)@ == departed(old(room)@, me),
        l == leaving_of(old(room)@, me),
        final(room)@.flying.contains(l.tid),
        final(room)@.tasks[l.tid].state is Doomed,
{
    let ghost v = room@;
    proof {
        room.lemma_queue_not_flying(me as int);
    }
    let (tid, _next) = room.swap(me);
    let reason: usize = take_exit_reason(room, me);
    room.transform(tid, TaskState::Doomed);
    proof {
        assert(room@ =~= departed(v, me));
    }
    Leaving { tid, reason }
}

/// Whether nobody else holds `space`.
pub open spec fn sole(v: RoomView, space: usize) -> bool {
    v.spaces.contains_key(space) && v.spaces[space] == 1
}

/// The room in which team `t` lists only those that still exist.
pub open spec fn team_pruned(v: RoomView, t: usize) -> RoomView {
    if v.teams.contains_key(t) {
        RoomView {
            teams: v.teams.insert(
                t,
                TeamView { tasks: living(v, v.teams[t].tasks), ..v.teams[t] },
            ),
            ..v
        }
    } else {
        v
    }
}

/// Whether `w` is what clearing the first husk of `v` away makes of it: whoever waited for
/// its end is ready, and whoever waited for a word of its space (the words `keys`) where
/// nobody else holds that; its team forgets it.
pub open spec fn buried_with(
    v: RoomView,
    w: RoomView,
    me: usize,
    hads: Seq<bool>,
    keys: Seq<WakeKey>,
) -> bool {
    let id = v.husks[0];
    let ident = v.tasks[id].ident;
    let a = RoomView {
        husks: v.husks.drop_first(),
        tasks: v.tasks.insert(id, (TaskBody { buried: true, ..v.tasks[id] })),
        ..v
    };
    let b = wiped(a, me, WakeKey::Task { id }, hads);
    let c = if sole(b, ident.space) {
        swept(b, me, keys)
    } else {
        b
    };
    &&& sole(b, ident.space) ==> space_keys(b, ident.space, keys)
    &&& w == team_pruned(c, ident.team)
}

/// [`buried_with`], wherever there was memory and in whatever order the words came.
pub open spec fn buried_one(v: RoomView, w: RoomView, me: usize) -> bool {
    exists|hads: Seq<bool>, keys: Seq<WakeKey>| #[trigger] buried_with(v, w, me, hads, keys)
}

/// Whether `w` is what clearing `n` husks of `v` away makes of it.
pub open spec fn buried_all(v: RoomView, w: RoomView, me: usize, n: nat) -> bool
    decreases n,
{
    if n == 0 {
        w == v
    } else {
        exists|u: RoomView| #[trigger] buried_one(u, w, me) && buried_all(v, u, me, (n - 1) as nat)
    }
}

proof fn lemma_buried_step(v: RoomView, u: RoomView, w: RoomView, me: usize, n: nat)
    requires
        buried_all(v, u, me, n),
        buried_one(u, w, me),
    ensures
        buried_all(v, w, me, n + 1),
{
    assert(buried_one(u, w, me) && buried_all(v, u, me, ((n + 1) - 1) as nat));
}

/// What the host gives back for a task that was cleared away: its stack and its trap frame, in
/// its address space. There is one for each task, and [`give_back`] uses it up.
#[derive(Debug, PartialEq, Eq, Structural)]
pub struct Remains {
    pub tid: usize,
    pub team: usize,
    pub space: usize,
    pub stack: Span,
    pub trap: Span,
}

/// What is left of the task `id`.
pub open spec fn remains_of(v: RoomView, id: usize) -> Remains {
    let ident = v.tasks[id].ident;
    Remains {
        tid: id,
        team: ident.team,
        space: ident.space,
        stack: ident.stack,
        trap: ident.trap,
    }
}

/// Whether every task of `a` is who it was.
pub open spec fn idents_kept(a: RoomView, b: RoomView) -> bool {
    forall|x: usize| a.tasks.contains_key(x) ==> (#[trigger] b.tasks[x]).ident == a.tasks[x].ident
}

/// Clears the first husk away.
fn bury_first(room: &mut Room, me: usize) -> (r: Option<Remains>)
    requires
        old(room).wf(),
    ensures
        final(room).wf(),
        r is None <==> old(room)@.husks.len() == 0,
        r is None ==> final(room)@ == old(room)@,
        r matches Some(r) ==> {
            &&& buried_one(old(room)@, final(room)@, me)
            &&& final(room)@.husks == old(room)@.husks.drop_first()
            &&& final(room)@.flying == old(room)@.flying
            &&& final(room)@.tasks.dom() == old(room)@.tasks.dom()
            &&& idents_kept(old(room)@, final(room)@)
            &&& final(room)@.lanes.len() == old(room)@.lanes.len()
            &&& final(room)@.score.reaped == old(room)@.score.reaped
            &&& final(room)@.reasons == old(room)@.reasons
            &&& forall|x: usize|
                old(room)@.tasks.contains_key(x) ==> (#[trigger] final(room)@.tasks[x]).buried == (
                old(room)@.tasks[x].buried || x == old(room)@.husks[0])
            &&& r == remains_of(old(room)@, old(room)@.husks[0])
        },
{
    let ghost v = room@;
    match room.husk_pop() {
        None => None,
        Some(id) => {
            let ghost a = room@;
            let mut team: usize = 0;
            let mut space: usize = 0;
            let mut stack: Span = Span { va: 0, size: 0 };
            let mut trap: Span = stack;
            match room.tasks.get(id) {
                Some(t) => {
                    assert(room@.tasks[id] == t.body());
                    team = t.ident.team;
                    space = t.ident.space;
                    stack = t.ident.stack;
                    trap = t.ident.trap;
                },
                None => {},
            }
            wipe(room, me, WakeKey::Task { id });
            let ghost b = room@;
            let ghost hads = choose|hads: Seq<bool>|
                b == #[trigger] wiped(a, me, WakeKey::Task { id }, hads);
            let ghost mut keys: Seq<WakeKey> = Seq::empty();
            let mut last: bool = false;
            match room.spaces.get(space) {
                Some(n) => {
                    last = *n == 1;
                },
                None => {},
            }
            assert(last == sole(b, space));
            if last {
                wipe_space(room, me, space);
                proof {
                    keys = choose|keys: Seq<WakeKey>| #[trigger]
                        space_keys(b, space, keys) && room@ == swept(b, me, keys);
                }
            }
            let ghost c = room@;
            prune_tasks(room, team);
            proof {
                assert(c == (if sole(b, space) {
                    swept(b, me, keys)
                } else {
                    b
                }));
                assert(buried_with(v, room@, me, hads, keys));
                assert(room@.tasks.dom() =~= v.tasks.dom());
                lemma_cleared_people(*old(room), room@, me, hads, keys);
            }
            Some(Remains { tid: id, team, space, stack, trap })
        },
    }
}

/// Team `t` forgets those that no longer exist.
pub fn prune_tasks(room: &mut Room, t: usize)
    requires
        old(room).wf(),
    ensures
        final(room).wf(),
        final(room)@ == team_pruned(old(room)@, t),
{
    let ghost v = room@;
    let mut kept: Vec<usize> = Vec::new();
    match room.teams.get(t) {
        None => {},
        Some(team) => {
            let ghost all = team.tasks@;
            let mut i: usize = 0;
            assert(all.take(0) =~= Seq::<usize>::empty());
            while i < team.tasks.len()
                invariant
                    i <= all.len(),
                    all == team.tasks@,
                    kept@ == living(room@, all.take(i as int)),
                decreases all.len() - i,
            {
                let id: usize = team.tasks[i];
                assert(all.take(i + 1).drop_last() =~= all.take(i as int));
                assert(all.take(i + 1).last() == id);
                match room.tasks.get(id) {
                    None => {},
                    Some(task) => {
                        assert(room@.tasks[id] == task.body());
                        if !task.buried {
                            kept.push(id);
                        }
                    },
                }
                i += 1;
            }
            assert(all.take(i as int) =~= all);
        },
    }
    match room.teams.get_mut(t) {
        None => {},
        Some(team) => {
            team.tasks = kept;
        },
    }
    proof {
        lemma_same_floor(*old(room), *room);
        assert(room@.teams =~= team_pruned(v, t).teams);
        assert(room@ =~= team_pruned(v, t));
    }
}

/// Clears every husk away, first in first. Gives what the host is to give back for each; none
/// is counted yet.
pub fn bury(room: &mut Room, me: usize) -> (remains: Vec<Remains>)
    requires
        old(room).wf(),
    ensures
        final(room).wf(),
        final(room)@.husks.len() == 0,
        buried_all(old(room)@, final(room)@, me, old(room)@.husks.len()),
        remains@.len() == old(room)@.husks.len(),
        forall|i: int|
            0 <= i < remains@.len() ==> #[trigger] remains@[i] == remains_of(
                old(room)@,
                old(room)@.husks[i],
            ),
        final(room)@.flying == old(room)@.flying,
        final(room)@.lanes.len() == old(room)@.lanes.len(),
        final(room)@.tasks.dom() == old(room)@.tasks.dom(),
        final(room)@.score.reaped == old(room)@.score.reaped,
        final(room)@.reasons == old(room)@.reasons,
        forall|i: int|
            0 <= i < old(room)@.husks.len() ==> final(room)@.tasks[#[trigger] old(
                room,
            )@.husks[i]].buried,
        forall|x: usize|
            old(room)@.tasks.contains_key(x) && old(room)@.tasks[x].buried ==> (
            #[trigger] final(room)@.tasks[x]).buried,
{
    let ghost v = room@;
    let ghost all = v.husks;
    let mut remains: Vec<Remains> = Vec::new();
    assert(all.skip(0) =~= all);
    assert forall|i: int| 0 <= i < all.len() implies v.tasks.contains_key(#[trigger] all[i]) by {
        assert(room.tasks@.contains_key(room.husks@[i]));
    }
    loop
        invariant
            room.wf(),
            v == old(room)@,
            all == v.husks,
            remains@.len() <= all.len(),
            room@.husks == all.skip(remains@.len() as int),
            buried_all(v, room@, me, remains@.len()),
            forall|i: int|
                0 <= i < remains@.len() ==> #[trigger] remains@[i] == remains_of(v, all[i]),
            idents_kept(v, room@),
            room@.flying == v.flying,
            room@.lanes.len() == v.lanes.len(),
            room@.tasks.dom() == v.tasks.dom(),
            room@.score.reaped == v.score.reaped,
            room@.reasons == v.reasons,
            forall|i: int| 0 <= i < all.len() ==> v.tasks.contains_key(#[trigger] all[i]),
            forall|i: int|
                0 <= i < remains@.len() ==> room@.tasks[#[trigger] all[i]].buried,
            forall|x: usize|
                v.tasks.contains_key(x) && v.tasks[x].buried ==> (
                #[trigger] room@.tasks[x]).buried,
        ensures
            remains@.len() == all.len(),
        decreases all.len() - remains@.len(),
    {
        let ghost u = room@;
        let ghost n = remains@.len() as int;
        match bury_first(room, me) {
            None => {
                break;
            },
            Some(r) => {
                remains.push(r);
                proof {
                    assert(all.skip(n).drop_first() =~= all.skip(n + 1));
                    lemma_buried_step(v, u, room@, me, n as nat);
                }
            },
        }
    }
    remains
}

/// The room after one that was cleared away was counted.
pub open spec fn paid(v: RoomView) -> RoomView {
    RoomView { score: Score { reaped: v.score.reaped.wrapping_add(1), ..v.score }, ..v }
}

/// The host has given `r` back, the stack and the trap frame: the task is counted as gone.
pub fn give_back(room: &mut Room, r: Remains) -> (tid: usize)
    requires
        old(room).wf(),
    ensures
        final(room).wf(),
        final(room)@ == paid(old(room)@),
        tid == r.tid,
{
    conductor::exit(&mut room.score);
    proof {
        lemma_same_floor(*old(room), *room);
        assert(room@ =~= paid(old(room)@));
    }
    r.tid
}

/// A task that had its last rites is among the husks, or was cleared away.
proof fn lemma_reaped_is_husk(room: Room, tid: usize)
    requires
        room.wf(),
        room@.settled(),
        room@.tasks.contains_key(tid),
        room@.tasks[tid].state is Reaped,
        !room@.tasks[tid].buried,
    ensures
        room@.husks.contains(tid),
{
    let t = room.tasks@[tid];
    assert(room@.tasks[tid] == t.body());
    assert(room.homed(tid));
    match t.place@ {
        Place::Flight => {
            assert(room@.flying.contains(tid));
        },
        Place::Slot(h) => {
            assert(room.lanes@[h].hart == h && room.lanes@[h].wf(room.tasks@));
        },
        Place::Lane(h) => {
            assert(room.lanes@[h].hart == h && room.lanes@[h].wf(room.tasks@));
            room.lanes@[h].ready.lemma_members(room.tasks@);
            let s = room.lanes@[h].ready.order();
            assert(s.contains(tid));
            let i = choose|i: int| 0 <= i < s.len() && s[i] == tid;
            assert(room.tasks@[s[i]].state == TaskState::Starved);
        },
        Place::Site(k) => {
            assert(room.sites@[k].wf(k, room.tasks@));
            room.sites@[k].chain.lemma_members(room.tasks@);
            let s = room.sites@[k].chain.order();
            assert(s.contains(tid));
            let i = choose|i: int| 0 <= i < s.len() && s[i] == tid;
            assert(crate::room::messenger::wait::site::waits_at(room.tasks@[s[i]], k));
        },
        _ => {},
    }
}

/// Whether `w`, `remains` and `next` are what comes of it, on hart `me`, that the last rites of
/// `tid` have been held in `v`: every husk is cleared away, none is counted yet, and the hart
/// goes on.
pub open spec fn settled_by(
    v: RoomView,
    w: RoomView,
    me: usize,
    tid: usize,
    remains: Seq<Remains>,
    next: Option<usize>,
) -> bool {
    let a = reaped(v, tid);
    &&& w.husks.len() == 0
    &&& w.score.reaped == v.score.reaped
    &&& w.reasons == v.reasons
    &&& w.tasks.contains_key(tid) && w.tasks[tid].buried
    &&& remains.len() == a.husks.len()
    &&& forall|i: int|
        0 <= i < a.husks.len() ==> #[trigger] remains[i] == remains_of(a, a.husks[i])
    &&& exists|u: RoomView| #[trigger]
        buried_all(a, u, me, a.husks.len()) && w == u.ticked(me as int) && (next is None
            <==> u.lanes[me as int].running is None)
    &&& next is Some ==> next->0 == w.tasks[w.lanes[me as int].running->0].ident.frame
}

/// The last rites of `tid`, which quit on hart `me`, have been held: every husk is cleared
/// away, and the hart goes on with the next task. Gives what the host is to give back and then
/// count (see [`give_back`]), and the next frame; without one the hart fetches work.
pub fn settle(room: &mut Room, me: usize, tid: usize) -> (r: (Vec<Remains>, Option<usize>))
    requires
        old(room).wf(),
        old(room)@.settled(),
        me < old(room).lanes@.len(),
        old(room)@.tasks.contains_key(tid),
        old(room)@.tasks[tid].state is Reaped || (old(room)@.flying.contains(tid)
            && old(room)@.tasks[tid].state is Doomed),
    ensures
        final(room).wf(),
        settled_by(old(room)@, final(room)@, me, tid, r.0@, r.1),
{
    let ghost v = room@;
    reap(room, tid);
    let ghost w = room@;
    proof {
        if !w.tasks[tid].buried {
            lemma_reaped_is_husk(*room, tid);
        }
    }
    let remains: Vec<Remains> = bury(room, me);
    let ghost u = room@;
    assert(w.lanes.len() == v.lanes.len());
    assert(u.lanes.len() == room.lanes@.len());
    let pa: Option<usize> = room.advance(me);
    let r: (Vec<Remains>, Option<usize>) = (remains, pa);
    proof {
        assert(u.tasks[tid].buried) by {
            if !w.tasks[tid].buried {
                let i = choose|i: int| 0 <= i < w.husks.len() && w.husks[i] == tid;
                assert(u.tasks[w.husks[i]].buried);
            }
        }
    }
    assert(buried_all(reaped(v, tid), u, me, reaped(v, tid).husks.len()));
    r
}

} // verus!
