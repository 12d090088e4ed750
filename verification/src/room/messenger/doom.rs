//! Stopping tasks from outside.
//!
//! A task that is held, ready or waiting is taken out of its container at once. One that
//! runs cannot be: a note is left that it is to stop, and its hart is interrupted. Notes
//! that found nobody are swept up later.
//!
//! Stopping is not ending: a task stopped here is [`TaskState::Doomed`] and in flight, and
//! whoever asked for it sees to its last rites.
use vstd::prelude::*;
use crate::room::{CullStats, Room, RoomView};
use crate::room::conductor;
use crate::room::messenger::EXIT_CASCADE;
use crate::room::messenger::wait::prune;
use crate::room::messenger::wait::pruned;
use crate::room::messenger::wait::holder::{Ticket, void};
use crate::room::messenger::wait::holder::{lemma_same_floor, voided};
use crate::room::messenger::wait::site::WakeKey;
use crate::room::scheduler::table::{remove_from_starved, running_hart};
use crate::room::scheduler::table::{hart_of, ready_on, runs_on, unqueued};
use crate::unit::task::{TaskState, TaskTag};

verus! {

/// The room without the note that `tid` is to stop.
pub open spec fn undoomed(v: RoomView, tid: usize) -> RoomView {
    if v.doomed.contains_key(tid) {
        RoomView { doomed: v.doomed.remove(tid), pending: (v.pending - 1) as usize, ..v }
    } else {
        v
    }
}

/// The reason for which `tid` is to stop, if it is.
pub open spec fn doom_of(v: RoomView, tid: usize) -> Option<usize> {
    if v.doomed.contains_key(tid) {
        Some(v.doomed[tid])
    } else {
        None
    }
}

/// Takes the note that `tid` is to stop.
pub fn take_doomed(room: &mut Room, tid: usize) -> (reason: Option<usize>)
    requires
        old(room).wf(),
    ensures
        final(room).wf(),
        reason == doom_of(old(room)@, tid),
        final(room)@ == undoomed(old(room)@, tid),
{
    if room.pending == 0 {
        proof {
            assert(room.doomed@.dom() =~= Set::<usize>::empty());
            assert(!room.doomed@.contains_key(tid));
        }
        return None;
    }
    let out: Option<usize> = room.doomed.remove(tid);
    if out.is_some() {
        room.pending = room.pending - 1;
    } else {
        assert(room.doomed@ =~= old(room).doomed@);
    }
    proof {
        lemma_same_floor(*old(room), *room);
        assert(room@ =~= undoomed(old(room)@, tid));
    }
    out
}

/// How tasks were found that were stopped from outside: held, ready, waiting, running.
pub fn branch_stats(room: &Room) -> (c: (usize, usize, usize, usize))
    ensures
        c == (
            room@.culled.held,
            room@.culled.starved,
            room@.culled.blocked,
            room@.culled.nudged,
        ),
{
    (room.culled.held, room.culled.starved, room.culled.blocked, room.culled.nudged)
}

/// Drops every note.
pub fn rip(room: &mut Room)
    requires
        old(room).wf(),
    ensures
        final(room).wf(),
        final(room)@ == (RoomView {
            doomed: Map::<usize, usize>::empty(),
            pending: 0,
            ..old(room)@
        }),
{
    room.doomed.clear();
    room.pending = 0;
    proof {
        lemma_same_floor(*old(room), *room);
        assert(room@ =~= (RoomView {
            doomed: Map::<usize, usize>::empty(),
            pending: 0,
            ..old(room)@
        }));
    }
}

/// The room after a note was left that `id` is to stop; `had` is false where there was no
/// memory for it. The hart on which it runs, if any, is to be interrupted.
pub open spec fn nudged(v: RoomView, id: usize, reason: usize, had: bool) -> RoomView {
    RoomView {
        culled: CullStats { nudged: v.culled.nudged.wrapping_add(1), ..v.culled },
        doomed: if had {
            v.doomed.insert(id, reason)
        } else {
            v.doomed
        },
        pending: if had && !v.doomed.contains_key(id) {
            (v.pending + 1) as usize
        } else {
            v.pending
        },
        outbox: match hart_of(v, id) {
            Some(h) => v.outbox.push(conductor::nudge_call(h as int)),
            None => v.outbox,
        },
        ..v
    }
}

/// Leaves a note that `id` is to stop, where there is memory for it (`had`), and interrupts
/// its hart.
#[verifier::rlimit(40)]
pub fn nudge_with(room: &mut Room, id: usize, reason: usize, had: bool)
    requires
        old(room).wf(),
    ensures
        final(room).wf(),
        final(room)@ == nudged(old(room)@, id, reason, had),
{
    let ghost v = room@;
    room.culled.nudged = room.culled.nudged.wrapping_add(1);
    if had {
        let fresh: bool = room.doomed.insert(id, reason).is_none();
        let _n: usize = room.doomed.len();
        if fresh {
            assert(room.doomed@.dom() =~= v.doomed.dom().insert(id));
            room.pending = room.pending + 1;
        } else {
            assert(room.doomed@.dom() =~= v.doomed.dom());
        }
    }
    proof {
        lemma_same_floor(*old(room), *room);
        assert(forall|h: int| runs_on(room@, h, id) == runs_on(v, h, id));
    }
    match running_hart(room, id) {
        Some(h) => {
            let ghost here = *room;
            room.outbox.push(conductor::nudge(h));
            proof {
                lemma_same_floor(here, *room);
                lemma_hart_of(here@, v, id);
                assert(room@ =~= nudged(v, id, reason, had));
            }
        },
        None => {
            proof {
                lemma_hart_of(room@, v, id);
                assert(room@ =~= nudged(v, id, reason, had));
            }
        },
    }
}

/// Leaves a note that `id` is to stop, as [`nudge_with`] does. Never stops it itself.
pub fn doomed_nudge(room: &mut Room, id: usize, reason: usize) -> (stopped: bool)
    requires
        old(room).wf(),
    ensures
        final(room).wf(),
        !stopped,
        exists|had: bool| final(room)@ == #[trigger] nudged(old(room)@, id, reason, had),
{
    let had: bool = room.doomed.try_reserve();
    proof {
        lemma_same_floor(*old(room), *room);
        assert(room@ =~= old(room)@);
    }
    nudge_with(room, id, reason, had);
    false
}

/// Where a task runs depends on the harts alone.
proof fn lemma_hart_of(a: RoomView, b: RoomView, id: usize)
    requires
        a.lanes == b.lanes,
    ensures
        hart_of(a, id) == hart_of(b, id),
{
    assert(forall|h: int| runs_on(a, h, id) == runs_on(b, h, id));
    if exists|h: int| runs_on(a, h, id) {
        let h = choose|h: int| runs_on(a, h, id);
        assert(runs_on(b, h, id));
        lemma_first_hart(a, id, h);
        lemma_first_hart(b, id, h);
    } else if exists|h: int| runs_on(b, h, id) {
        let h = choose|h: int| runs_on(b, h, id);
        assert(runs_on(a, h, id));
    }
}

/// Where there is a hart on which a task runs, there is a first one.
proof fn lemma_first_hart(v: RoomView, id: usize, h: int)
    requires
        runs_on(v, h, id),
    ensures
        exists|c: int| #[trigger]
            runs_on(v, c, id) && forall|j: int| 0 <= j < c ==> !#[trigger] runs_on(v, j, id),
    decreases h,
{
    if exists|j: int| 0 <= j < h && #[trigger] runs_on(v, j, id) {
        let j = choose|j: int| 0 <= j < h && #[trigger] runs_on(v, j, id);
        lemma_first_hart(v, id, j);
    }
}

/// Takes `id` out of the line in which it waits. Gives its ticket; `None` where it waits
/// in none.
pub fn pop_waiter(room: &mut Room, id: usize) -> (ticket: Option<u64>)
    requires
        old(room).wf(),
    ensures
        final(room).wf(),
        ticket is Some <==> in_line(old(room)@, id),
        ticket is None ==> final(room)@ == old(room)@,
        ticket matches Some(t) ==> {
            let key = old(room)@.tasks[id].state->key;
            &&& t == old(room)@.tasks[id].state->ticket
            &&& final(room)@ == pruned(old(room)@.plucked(key, id), key)
            &&& !old(room)@.flying.contains(id)
        },
{
    let mut mine: Option<(WakeKey, u64)> = None;
    match room.tasks.get(id) {
        Some(t) => {
            assert(room@.tasks[id] == t.body());
            if let TaskState::Blocked { key, ticket } = t.state {
                mine = Some((key, ticket));
            }
        },
        None => {},
    }
    match mine {
        None => None,
        Some((key, ticket)) => {
            if room.site_remove(key, id) {
                prune(room, key);
                Some(ticket)
            } else {
                None
            }
        },
    }
}

/// Whether `id` waits in the line at the key that its state names.
pub open spec fn in_line(v: RoomView, id: usize) -> bool {
    let s = v.tasks[id].state;
    v.tasks.contains_key(id) && s is Blocked && v.sites.contains_key(s->key)
        && v.sites[s->key].line.contains(id)
}

/// The room in which a task that was just taken out of its container is doomed.
pub open spec fn stopped(v: RoomView, id: usize, culled: CullStats) -> RoomView {
    RoomView { culled, ..v }.set_state(id, TaskState::Doomed)
}

/// Whether `w` and `done` are what stopping `id` makes of `v`.
pub open spec fn suspended(
    v: RoomView,
    w: RoomView,
    id: usize,
    reason: usize,
    done: bool,
) -> bool {
    let s = v.tasks[id].state;
    let c = v.culled;
    if s is Reaped || s is Doomed {
        !done && w == v
    } else if s is Held {
        done && w == stopped(
            RoomView { flying: v.flying.insert(id), ..v },
            id,
            CullStats { held: c.held.wrapping_add(1), ..c },
        )
    } else if s is Starved && exists|h: int| ready_on(v, h, id) {
        done && exists|h: int| #[trigger]
            ready_on(v, h, id) && w == stopped(
                unqueued(v, h, id),
                id,
                CullStats { starved: c.starved.wrapping_add(1), ..c },
            )
    } else if s is Blocked && in_line(v, id) {
        done && w == stopped(
            voided(pruned(v.plucked(s->key, id), s->key), s->ticket),
            id,
            CullStats { blocked: c.blocked.wrapping_add(1), ..c },
        )
    } else {
        !done && exists|had: bool| w == #[trigger] nudged(v, id, reason, had)
    }
}

/// How often [`suspend`] looks again for a task that was not where its state said.
pub const RETRY: usize = 4;

/// Stops the task `id` if it can be reached. `true` where it is doomed and in flight now;
/// `false` where it had been stopped before, or where a note was left for it.
pub fn suspend(room: &mut Room, id: usize, reason: usize) -> (done: bool)
    requires
        old(room).wf(),
        old(room)@.settled(),
        old(room)@.tasks.contains_key(id),
    ensures
        final(room).wf(),
        final(room)@.settled(),
        suspended(old(room)@, final(room)@, id, reason, done),
        done ==> final(room)@.flying.contains(id) && final(room)@.tasks[id].state
            == TaskState::Doomed,
{
    let ghost v = room@;
    let mut tries: usize = 0;
    while tries <= RETRY
        invariant
            room.wf(),
            room@ == v,
            v == old(room)@,
            v.settled(),
            v.tasks.contains_key(id),
            tries <= RETRY + 1,
            tries > 0 ==> {
                let s = v.tasks[id].state;
                &&& !(s is Reaped || s is Doomed)
                &&& !(s is Held)
                &&& s is Starved ==> forall|h: int| !ready_on(v, h, id)
                &&& s is Blocked ==> !in_line(v, id)
            },
        decreases RETRY + 1 - tries,
    {
        let mut tag: TaskTag = TaskTag::Reaped;
        match room.tasks.get(id) {
            Some(t) => {
                tag = t.tag();
                assert(room@.tasks[id] == t.body());
            },
            None => {},
        }
        match tag {
            TaskTag::Reaped => {
                return false;
            },
            TaskTag::Doomed => {
                return false;
            },
            TaskTag::Held => {
                room.release_held(id);
                let ghost here = *room;
                room.culled.held = room.culled.held.wrapping_add(1);
                proof {
                    lemma_same_floor(here, *room);
                    assert(room@ =~= RoomView { culled: room.culled, ..here@ });
                }
                room.transform(id, TaskState::Doomed);
                return true;
            },
            TaskTag::Starved => {
                if remove_from_starved(room, id) {
                    let ghost h = choose|h: int| #[trigger]
                        ready_on(v, h, id) && room@ == unqueued(v, h, id);
                    let ghost here = *room;
                    room.culled.starved = room.culled.starved.wrapping_add(1);
                    proof {
                        lemma_same_floor(here, *room);
                        assert(room@ =~= RoomView { culled: room.culled, ..here@ });
                    }
                    room.transform(id, TaskState::Doomed);
                    assert(ready_on(v, h, id) && room@ == stopped(
                        unqueued(v, h, id),
                        id,
                        CullStats {
                            starved: v.culled.starved.wrapping_add(1),
                            ..v.culled
                        },
                    ));
                    return true;
                }
            },
            TaskTag::Blocked => {
                match pop_waiter(room, id) {
                    None => {},
                    Some(ticket) => {
                        void(room, Ticket(ticket));
                        let ghost here = *room;
                        room.culled.blocked = room.culled.blocked.wrapping_add(1);
                        proof {
                            lemma_same_floor(here, *room);
                            assert(room@ =~= RoomView { culled: room.culled, ..here@ });
                        }
                        room.transform(id, TaskState::Doomed);
                        return true;
                    },
                }
            },
            TaskTag::Running => {
                if running_hart(room, id).is_some() {
                    return doomed_nudge(room, id, reason);
                }
            },
        }
        tries += 1;
    }
    doomed_nudge(room, id, reason)
}

/// Whether numbers grow along the lineage: a team that a task founds has a higher number
/// than the task's own, and its sire is of a team with a lower one. Numbers are given in
/// the order in which teams are made, so this is always so.
pub open spec fn lineage_ok(v: RoomView) -> bool {
    &&& forall|t: usize, i: int, j: int|
        v.teams.contains_key(t) && 0 <= i < v.teams[t].tasks.len() && v.tasks.contains_key(
            v.teams[t].tasks[i],
        ) && 0 <= j < v.tasks[v.teams[t].tasks[i]].heirs.len() ==> t
            < #[trigger] v.tasks[v.teams[t].tasks[i]].heirs[j]
    &&& forall|t: usize| #[trigger]
        v.teams.contains_key(t) && v.teams[t].sire is Some && v.tasks.contains_key(
            v.teams[t].sire->0,
        ) ==> v.tasks[v.teams[t].sire->0].ident.team < t
}

/// Whether the task `id` exists: it was entered and has not been cleared away.
pub open spec fn exists_now(v: RoomView, id: usize) -> bool {
    v.tasks.contains_key(id) && !v.tasks[id].buried
}

/// Those of `ids` that exist, in order.
pub open spec fn living(v: RoomView, ids: Seq<usize>) -> Seq<usize>
    decreases ids.len(),
{
    if ids.len() == 0 {
        Seq::empty()
    } else if exists_now(v, ids.last()) {
        living(v, ids.drop_last()).push(ids.last())
    } else {
        living(v, ids.drop_last())
    }
}

/// The teams that the tasks `ids` have founded, in order.
pub open spec fn founded(v: RoomView, ids: Seq<usize>) -> Seq<usize>
    decreases ids.len(),
{
    if ids.len() == 0 {
        Seq::empty()
    } else {
        founded(v, ids.drop_last()) + v.tasks[ids.last()].heirs
    }
}

/// The living tasks of team `t`.
pub open spec fn members(v: RoomView, t: usize) -> Seq<usize> {
    if v.teams.contains_key(t) {
        living(v, v.teams[t].tasks)
    } else {
        Seq::empty()
    }
}

/// The living tasks of team `t` and of every team below it in the lineage.
pub open spec fn lineage(v: RoomView, t: usize) -> Seq<usize>
    decreases usize::MAX - t, 1nat, 0nat,
{
    members(v, t) + lineages(v, t, founded(v, members(v, t)))
}

/// [`lineage`] of each of `teams` that is above number `t`, the last one first.
pub open spec fn lineages(v: RoomView, t: usize, teams: Seq<usize>) -> Seq<usize>
    decreases usize::MAX - t, 0nat, teams.len(),
{
    if teams.len() == 0 {
        Seq::empty()
    } else if teams.last() > t {
        lineage(v, teams.last()) + lineages(v, t, teams.drop_last())
    } else {
        lineages(v, t, teams.drop_last())
    }
}

/// [`lineage`] of each of `roots`, the last one first.
pub open spec fn offspring(v: RoomView, roots: Seq<usize>) -> Seq<usize>
    decreases roots.len(),
{
    if roots.len() == 0 {
        Seq::empty()
    } else {
        lineage(v, roots.last()) + offspring(v, roots.drop_last())
    }
}

/// The living tasks of team `t`, and the teams that they have founded.
fn look_at_team(room: &Room, t: usize) -> (r: (Vec<usize>, Vec<usize>))
    requires
        room.wf(),
        lineage_ok(room@),
    ensures
        r.0@ == members(room@, t),
        r.1@ == founded(room@, members(room@, t)),
        forall|i: int| 0 <= i < r.1@.len() ==> #[trigger] r.1@[i] > t,
{
    let mut ids: Vec<usize> = Vec::new();
    let mut heirs: Vec<usize> = Vec::new();
    match room.teams.get(t) {
        None => {},
        Some(team) => {
            let ghost all = team.tasks@;
            assert(room@.teams[t] == team.held());
            let mut i: usize = 0;
            assert(all.take(0) =~= Seq::<usize>::empty());
            while i < team.tasks.len()
                invariant
                    room.wf(),
                    lineage_ok(room@),
                    room.teams@.contains_key(t),
                    *team == room.teams@[t],
                    all == team.tasks@,
                    i <= all.len(),
                    room@.teams.contains_key(t),
                    room@.teams[t] == team.held(),
                    ids@ == living(room@, all.take(i as int)),
                    heirs@ == founded(room@, ids@),
                    forall|j: int| 0 <= j < heirs@.len() ==> #[trigger] heirs@[j] > t,
                decreases all.len() - i,
            {
                let id: usize = team.tasks[i];
                let ghost was = ids@;
                assert(all.take(i + 1).drop_last() =~= all.take(i as int));
                assert(all.take(i + 1).last() == id);
                match room.tasks.get(id) {
                    None => {},
                    Some(task) => {
                        assert(room@.tasks[id] == task.body());
                        if !task.buried {
                            ids.push(id);
                            assert(ids@.drop_last() =~= was);
                            let ghost before = heirs@;
                            let mut k: usize = 0;
                            assert(task.heirs@.take(0) =~= Seq::<usize>::empty());
                            assert(before + task.heirs@.take(0) =~= before);
                            while k < task.heirs.len()
                                invariant
                                    k <= task.heirs@.len(),
                                    heirs@ == before + task.heirs@.take(k as int),
                                    lineage_ok(room@),
                                    room@.teams.contains_key(t),
                                    room@.teams[t].tasks == all,
                                    0 <= i < all.len(),
                                    all[i as int] == id,
                                    room@.tasks.contains_key(id),
                                    room@.tasks[id].heirs == task.heirs@,
                                    forall|j: int|
                                        0 <= j < heirs@.len() ==> #[trigger] heirs@[j] > t,
                                decreases task.heirs@.len() - k,
                            {
                                let h: usize = task.heirs[k];
                                assert(t < room@.tasks[room@.teams[t].tasks[i as int]].heirs[k as int]);
                                heirs.push(h);
                                assert(task.heirs@.take(k + 1) =~= task.heirs@.take(k as int).push(
                                    h,
                                ));
                                assert(heirs@ =~= before + task.heirs@.take(k + 1));
                                k += 1;
                            }
                            assert(task.heirs@.take(k as int) =~= task.heirs@);
                        }
                    },
                }
                i += 1;
            }
            assert(all.take(i as int) =~= all);
        },
    }
    (ids, heirs)
}

/// Appends `more` to `list`.
fn append_all(list: &mut Vec<usize>, more: &Vec<usize>)
    ensures
        final(list)@ == old(list)@ + more@,
{
    let mut i: usize = 0;
    assert(more@.take(0) =~= Seq::<usize>::empty());
    assert(old(list)@ + more@.take(0) =~= old(list)@);
    while i < more.len()
        invariant
            i <= more@.len(),
            list@ == old(list)@ + more@.take(i as int),
        decreases more@.len() - i,
    {
        list.push(more[i]);
        assert(more@.take(i + 1) =~= more@.take(i as int).push(more@[i as int]));
        assert(list@ =~= old(list)@ + more@.take(i + 1));
        i += 1;
    }
    assert(more@.take(i as int) =~= more@);
}

/// Lists the living tasks of team `t` and of every team below it.
fn gather(room: &Room, t: usize, list: &mut Vec<usize>)
    requires
        room.wf(),
        lineage_ok(room@),
    ensures
        final(list)@ == old(list)@ + lineage(room@, t),
    decreases usize::MAX - t,
{
    let (ids, heirs) = look_at_team(room, t);
    append_all(list, &ids);
    let ghost base = list@;
    let mut n: usize = heirs.len();
    assert(heirs@.take(n as int) =~= heirs@);
    assert(base + (Seq::<usize>::empty()) =~= base);
    let ghost mut sofar: Seq<usize> = Seq::empty();
    while n > 0
        invariant
            room.wf(),
            lineage_ok(room@),
            n <= heirs@.len(),
            forall|i: int| 0 <= i < heirs@.len() ==> #[trigger] heirs@[i] > t,
            list@ == base + sofar,
            sofar + lineages(room@, t, heirs@.take(n as int)) == lineages(room@, t, heirs@),
        decreases n,
    {
        let h: usize = heirs[n - 1];
        gather(room, h, list);
        proof {
            let rest = heirs@.take(n - 1);
            assert(heirs@.take(n as int).drop_last() =~= rest);
            assert(heirs@.take(n as int).last() == h);
            let next = sofar + lineage(room@, h);
            assert(list@ =~= base + next);
            assert(next + lineages(room@, t, rest) =~= sofar + (lineage(room@, h) + lineages(
                room@,
                t,
                rest,
            )));
            sofar = next;
        }
        n -= 1;
    }
    proof {
        assert(heirs@.take(0) =~= Seq::<usize>::empty());
        assert(sofar =~= lineages(room@, t, heirs@));
        assert(list@ =~= old(list)@ + lineage(room@, t));
    }
}

/// Whether `w` and `victims` are what stopping each of `ids` in turn makes of `v`.
pub open spec fn suspended_all(
    v: RoomView,
    w: RoomView,
    ids: Seq<usize>,
    reason: usize,
    victims: Seq<usize>,
) -> bool
    decreases ids.len(),
{
    if ids.len() == 0 {
        w == v && victims == Seq::<usize>::empty()
    } else {
        exists|u: RoomView, done: bool| #[trigger]
            suspended(u, w, ids.last(), reason, done) && suspended_all(
                v,
                u,
                ids.drop_last(),
                reason,
                if done {
                    victims.drop_last()
                } else {
                    victims
                },
            ) && (done ==> victims.len() > 0 && victims.last() == ids.last())
    }
}

/// Stops every living task of the teams `roots` and of the teams below them. Gives those
/// that are doomed and in flight now, in the order in which they were reached; the others
/// had been stopped before or have a note.
pub fn cull(room: &mut Room, roots: &Vec<usize>, reason: usize) -> (victims: Vec<usize>)
    requires
        old(room).wf(),
        old(room)@.settled(),
        lineage_ok(old(room)@),
    ensures
        final(room).wf(),
        final(room)@.settled(),
        suspended_all(
            old(room)@,
            final(room)@,
            offspring(old(room)@, roots@),
            reason,
            victims@,
        ),
{
    let ghost v = room@;
    let mut ids: Vec<usize> = Vec::new();
    let mut n: usize = roots.len();
    let ghost mut sofar: Seq<usize> = Seq::empty();
    assert(roots@.take(n as int) =~= roots@);
    while n > 0
        invariant
            room.wf(),
            lineage_ok(room@),
            room@ == v,
            n <= roots@.len(),
            ids@ == sofar,
            sofar + offspring(v, roots@.take(n as int)) == offspring(v, roots@),
        decreases n,
    {
        let t: usize = roots[n - 1];
        gather(room, t, &mut ids);
        proof {
            let rest = roots@.take(n - 1);
            assert(roots@.take(n as int).drop_last() =~= rest);
            let next = sofar + lineage(v, t);
            assert(next + offspring(v, rest) =~= sofar + (lineage(v, t) + offspring(v, rest)));
            sofar = next;
        }
        n -= 1;
    }
    proof {
        assert(roots@.take(0) =~= Seq::<usize>::empty());
        assert(ids@ =~= offspring(v, roots@));
        lemma_offspring_exist(v, roots@);
    }
    suspend_all(room, &ids, reason)
}

proof fn lemma_living_exist(v: RoomView, ids: Seq<usize>)
    ensures
        forall|i: int|
            0 <= i < living(v, ids).len() ==> exists_now(v, #[trigger] living(v, ids)[i]),
    decreases ids.len(),
{
    if ids.len() > 0 {
        lemma_living_exist(v, ids.drop_last());
        let rest = living(v, ids.drop_last());
        assert forall|i: int| 0 <= i < living(v, ids).len() implies exists_now(
            v,
            #[trigger] living(v, ids)[i],
        ) by {
            if i < rest.len() {
                assert(living(v, ids)[i] == rest[i]);
            }
        }
    }
}

proof fn lemma_lineage_exist(v: RoomView, t: usize)
    ensures
        forall|i: int|
            0 <= i < lineage(v, t).len() ==> exists_now(v, #[trigger] lineage(v, t)[i]),
    decreases usize::MAX - t, 1nat, 0nat,
{
    if v.teams.contains_key(t) {
        lemma_living_exist(v, v.teams[t].tasks);
    }
    let teams = founded(v, members(v, t));
    lemma_lineages_exist(v, t, teams);
    let (a, b) = (members(v, t), lineages(v, t, teams));
    assert forall|i: int| 0 <= i < lineage(v, t).len() implies exists_now(
        v,
        #[trigger] lineage(v, t)[i],
    ) by {
        if i < a.len() {
            assert(lineage(v, t)[i] == a[i]);
        } else {
            assert(lineage(v, t)[i] == b[i - a.len()]);
        }
    }
}

proof fn lemma_lineages_exist(v: RoomView, t: usize, teams: Seq<usize>)
    ensures
        forall|i: int|
            0 <= i < lineages(v, t, teams).len() ==> exists_now(
                v,
                #[trigger] lineages(v, t, teams)[i],
            ),
    decreases usize::MAX - t, 0nat, teams.len(),
{
    if teams.len() > 0 {
        lemma_lineages_exist(v, t, teams.drop_last());
        if teams.last() > t {
            lemma_lineage_exist(v, teams.last());
            let (a, b) = (lineage(v, teams.last()), lineages(v, t, teams.drop_last()));
            assert forall|i: int| 0 <= i < lineages(v, t, teams).len() implies exists_now(
                v,
                #[trigger] lineages(v, t, teams)[i],
            ) by {
                if i < a.len() {
                    assert(lineages(v, t, teams)[i] == a[i]);
                } else {
                    assert(lineages(v, t, teams)[i] == b[i - a.len()]);
                }
            }
        }
    }
}

/// Everybody in a lineage exists.
pub proof fn lemma_offspring_exist(v: RoomView, roots: Seq<usize>)
    ensures
        forall|i: int|
            0 <= i < offspring(v, roots).len() ==> exists_now(
                v,
                #[trigger] offspring(v, roots)[i],
            ),
    decreases roots.len(),
{
    if roots.len() > 0 {
        lemma_lineage_exist(v, roots.last());
        lemma_offspring_exist(v, roots.drop_last());
        let (a, b) = (lineage(v, roots.last()), offspring(v, roots.drop_last()));
        assert forall|i: int| 0 <= i < offspring(v, roots).len() implies exists_now(
            v,
            #[trigger] offspring(v, roots)[i],
        ) by {
            if i < a.len() {
                assert(offspring(v, roots)[i] == a[i]);
            } else {
                assert(offspring(v, roots)[i] == b[i - a.len()]);
            }
        }
    }
}

/// Stops each of `ids` that exists, in turn.
fn suspend_all(room: &mut Room, ids: &Vec<usize>, reason: usize) -> (victims: Vec<usize>)
    requires
        old(room).wf(),
        old(room)@.settled(),
        forall|i: int| 0 <= i < ids@.len() ==> old(room)@.tasks.contains_key(#[trigger] ids@[i]),
    ensures
        final(room).wf(),
        final(room)@.settled(),
        suspended_all(old(room)@, final(room)@, ids@, reason, victims@),
        forall|i: int|
            0 <= i < victims@.len() ==> final(room)@.flying.contains(#[trigger] victims@[i])
                && final(room)@.tasks[victims@[i]].state == TaskState::Doomed,
{
    let ghost v = room@;
    let mut victims: Vec<usize> = Vec::new();
    let mut i: usize = 0;
    assert(ids@.take(0) =~= Seq::<usize>::empty());
    while i < ids.len()
        invariant
            room.wf(),
            room@.settled(),
            v == old(room)@,
            i <= ids@.len(),
            suspended_all(v, room@, ids@.take(i as int), reason, victims@),
            room@.tasks.dom() == v.tasks.dom(),
            forall|j: int| 0 <= j < ids@.len() ==> v.tasks.contains_key(#[trigger] ids@[j]),
            forall|j: int|
                0 <= j < victims@.len() ==> room@.flying.contains(#[trigger] victims@[j])
                    && room@.tasks[victims@[j]].state == TaskState::Doomed,
        decreases ids@.len() - i,
    {
        let id: usize = ids[i];
        let ghost u = room@;
        let ghost was = victims@;
        assert(u.tasks.contains_key(ids@[i as int]));
        let done: bool = suspend(room, id, reason);
        if done {
            victims.push(id);
        }
        proof {
            lemma_suspended_dom(u, room@, id, reason, done);
            assert(ids@.take(i + 1).drop_last() =~= ids@.take(i as int));
            assert(ids@.take(i + 1).last() == id);
            if done {
                assert(victims@.drop_last() =~= was);
            }
            assert(suspended(u, room@, ids@.take(i + 1).last(), reason, done));
            assert(suspended_all(v, room@, ids@.take(i + 1), reason, victims@));
            assert forall|j: int|
                0 <= j < victims@.len() implies room@.flying.contains(#[trigger] victims@[j])
                && room@.tasks[victims@[j]].state == TaskState::Doomed by {
                if j < was.len() {
                    assert(victims@[j] == was[j]);
                    assert(u.flying.contains(was[j]));
                }
            }
        }
        i += 1;
    }
    assert(ids@.take(i as int) =~= ids@);
    victims
}

/// Stopping one task neither adds nor removes any, and leaves those in flight alone.
proof fn lemma_suspended_dom(u: RoomView, w: RoomView, id: usize, reason: usize, done: bool)
    requires
        suspended(u, w, id, reason, done),
        u.tasks.contains_key(id),
    ensures
        w.tasks.dom() == u.tasks.dom(),
        u.flying.subset_of(w.flying),
        forall|x: usize| x != id ==> w.tasks[x] == u.tasks[x],
        !done ==> w.tasks == u.tasks,
{
    assert(w.tasks.dom() =~= u.tasks.dom());
}

/// The task `tid` has ended: every team that it founded goes down with it, and every team
/// below those. Nothing happens where it never was or has been cleared away.
pub fn doom(room: &mut Room, tid: usize) -> (victims: Vec<usize>)
    requires
        old(room).wf(),
        old(room)@.settled(),
        lineage_ok(old(room)@),
    ensures
        final(room).wf(),
        final(room)@.settled(),
        !exists_now(old(room)@, tid) ==> final(room)@ == old(room)@ && victims@.len() == 0,
        exists_now(old(room)@, tid) ==> suspended_all(
            old(room)@,
            final(room)@,
            offspring(old(room)@, old(room)@.tasks[tid].heirs),
            EXIT_CASCADE,
            victims@,
        ),
{
    let mut heirs: Vec<usize> = Vec::new();
    match room.tasks.get(tid) {
        None => {
            return Vec::new();
        },
        Some(task) => {
            assert(room@.tasks[tid] == task.body());
            if task.buried {
                return Vec::new();
            }
            append_all(&mut heirs, &task.heirs);
            assert(heirs@ =~= task.heirs@);
        },
    }
    cull(room, &heirs, EXIT_CASCADE)
}

/// The most notes that one sweep looks at.
pub const BATCH: usize = 4;

/// Whether `w` and `victims` are what sweeping the notes `batch` in turn makes of `v`: a
/// note on a task that is gone or has ended is dropped; a task that can be stopped now is,
/// and its note dropped; otherwise the note stays.
pub open spec fn swept_up(
    v: RoomView,
    w: RoomView,
    batch: Seq<(usize, usize)>,
    victims: Seq<usize>,
) -> bool
    decreases batch.len(),
{
    if batch.len() == 0 {
        w == v && victims == Seq::<usize>::empty()
    } else {
        exists|u: RoomView, x: RoomView, done: bool| #[trigger]
            swept_one(u, x, w, batch.last(), done) && swept_up(
                v,
                u,
                batch.drop_last(),
                if done {
                    victims.drop_last()
                } else {
                    victims
                },
            ) && (done ==> victims.len() > 0 && victims.last() == batch.last().0)
    }
}

/// Whether `w` is what sweeping the note `n` makes of `u`, by way of `x`.
pub open spec fn swept_one(
    u: RoomView,
    x: RoomView,
    w: RoomView,
    n: (usize, usize),
    done: bool,
) -> bool {
    if !exists_now(u, n.0) || u.tasks[n.0].state is Reaped {
        !done && x == u && w == undoomed(u, n.0)
    } else {
        suspended(u, x, n.0, n.1, done) && w == (if done {
            undoomed(x, n.0)
        } else {
            x
        })
    }
}

/// Sweeps up to [`BATCH`] notes. Gives the tasks that are doomed and in flight now.
pub fn sweep_doomed(room: &mut Room) -> (victims: Vec<usize>)
    requires
        old(room).wf(),
        old(room)@.settled(),
    ensures
        final(room).wf(),
        final(room)@.settled(),
        exists|batch: Seq<(usize, usize)>| #[trigger]
            is_batch(old(room)@, batch) && swept_up(old(room)@, final(room)@, batch, victims@),
{
    let ghost v = room@;
    let mut victims: Vec<usize> = Vec::new();
    if room.pending == 0 {
        proof {
            assert(v.doomed.dom() =~= Set::<usize>::empty());
            assert(is_batch(v, Seq::empty()));
        }
        return victims;
    }
    let total: usize = room.doomed.len();
    let mut batch: Vec<(usize, usize)> = Vec::new();
    while batch.len() < BATCH && batch.len() < total
        invariant
            total == room.doomed.order().len(),
            total == v.doomed.dom().len(),
            v.doomed == room.doomed@,
            room.doomed.order().no_duplicates(),
            batch@.len() <= BATCH,
            batch@.len() <= total,
            forall|i: int|
                0 <= i < batch@.len() ==> (#[trigger] batch@[i]).0 == room.doomed.order()[i]
                    && v.doomed.contains_key(batch@[i].0) && v.doomed[batch@[i].0] == batch@[i].1,
        decreases total - batch@.len(),
    {
        let tid: usize = room.doomed.key_at(batch.len());
        let mut reason: usize = 0;
        match room.doomed.get(tid) {
            Some(r) => {
                reason = *r;
            },
            None => {},
        }
        batch.push((tid, reason));
    }
    assert(is_batch(v, batch@));
    let mut i: usize = 0;
    assert(batch@.take(0) =~= Seq::<(usize, usize)>::empty());
    while i < batch.len()
        invariant
            room.wf(),
            room@.settled(),
            v == old(room)@,
            i <= batch@.len(),
            swept_up(v, room@, batch@.take(i as int), victims@),
        decreases batch@.len() - i,
    {
        let (tid, reason) = batch[i];
        let ghost u = room@;
        let ghost was = victims@;
        let mut gone: bool = true;
        match room.tasks.get(tid) {
            Some(task) => {
                assert(room@.tasks[tid] == task.body());
                gone = task.buried || task.tag() == TaskTag::Reaped;
            },
            None => {},
        }
        let ghost mut x = u;
        let mut done: bool = false;
        if gone {
            take_doomed(room, tid);
        } else {
            done = suspend(room, tid, reason);
            proof {
                x = room@;
            }
            if done {
                take_doomed(room, tid);
                victims.push(tid);
            }
        }
        proof {
            assert(batch@.take(i + 1).drop_last() =~= batch@.take(i as int));
            assert(batch@.take(i + 1).last() == (tid, reason));
            if done {
                assert(victims@.drop_last() =~= was);
            }
            assert(swept_one(u, x, room@, batch@.take(i + 1).last(), done));
            assert(swept_up(v, room@, batch@.take(i + 1), victims@));
        }
        i += 1;
    }
    assert(batch@.take(i as int) =~= batch@);
    victims
}

/// Whether `batch` are different notes of `v`: four, or all where there are fewer.
pub open spec fn is_batch(v: RoomView, batch: Seq<(usize, usize)>) -> bool {
    &&& forall|i: int|
        0 <= i < batch.len() ==> v.doomed.contains_key((#[trigger] batch[i]).0)
            && v.doomed[batch[i].0] == batch[i].1
    &&& forall|i: int, j: int|
        0 <= i < j < batch.len() ==> (#[trigger] batch[i]).0 != (#[trigger] batch[j]).0
    &&& batch.len() == (if v.doomed.dom().len() < BATCH {
        v.doomed.dom().len() as int
    } else {
        BATCH as int
    })
}

/// Whether team `actor` is strictly above team `target` in the lineage: the task that
/// founded `target` is of `actor`, or of a team below it. A sire that was cleared away
/// breaks the line.
pub open spec fn above(v: RoomView, actor: usize, target: usize) -> bool
    decreases target,
{
    if !v.teams.contains_key(target) {
        false
    } else {
        match v.teams[target].sire {
            None => false,
            Some(sire) => {
                let t = v.tasks[sire].ident.team;
                exists_now(v, sire) && t < target && (t == actor || above(v, actor, t))
            },
        }
    }
}

/// Computes [`above`].
pub fn descends(room: &Room, actor: usize, target: usize) -> (yes: bool)
    requires
        lineage_ok(room@),
    ensures
        yes == above(room@, actor, target),
{
    let mut team: usize = target;
    loop
        invariant
            lineage_ok(room@),
            above(room@, actor, team) == above(room@, actor, target),
        decreases team,
    {
        let mut sire: Option<usize> = None;
        match room.teams.get(team) {
            Some(t) => {
                assert(room@.teams[team] == t.held());
                sire = t.sire;
            },
            None => {},
        }
        match sire {
            None => {
                return false;
            },
            Some(id) => {
                match room.tasks.get(id) {
                    None => {
                        return false;
                    },
                    Some(parent) => {
                        assert(room@.tasks[id] == parent.body());
                        assert(room@.tasks.contains_key(id));
                        assert(room@.teams.contains_key(team));
                        if parent.buried {
                            return false;
                        }
                        if parent.ident.team == actor {
                            return true;
                        }
                        team = parent.ident.team;
                    },
                }
            },
        }
    }
}

} // verus!
