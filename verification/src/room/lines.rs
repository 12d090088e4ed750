//! What waiting, waking and passing deadlines do to the lines.
use vstd::prelude::*;
use crate::room::{Room, RoomView};
use crate::room::cascade::law_without_is_all_others;
use crate::room::laws::{apart, law_wake_serves_the_first};
use crate::room::messenger::wait::site::WakeKey;
use crate::room::messenger::wait::{
    claim, claims, cleared, first_under, gone_to_wait, knocked, knocked_all, released, released_all,
    risen_all,
    toles_at, touched, pruned, wiped, woken,
};
use crate::room::scheduler::Tock;
use crate::unit::task::TaskState;

verus! {

/// Who goes to wait where others stand goes to the end of the line and leaves them in their
/// order before it. It waits for this key under the ticket that was next, and has the deadline
/// that it asked for and no other.
pub proof fn law_wait_joins_at_the_end(
    v: RoomView,
    me: usize,
    key: WakeKey,
    life: usize,
    tock: Option<Tock>,
)
    requires
        me < v.lanes.len(),
        v.lanes[me as int].running is Some,
        v.sites.contains_key(key),
        v.lives.contains(v.sites[key].life),
        !v.sites[key].pend,
    ensures
        ({
            let id = v.lanes[me as int].running->0;
            let w = gone_to_wait(v, me, key, life, tock);
            &&& w.sites.contains_key(key)
            &&& w.sites[key].line == v.sites[key].line.push(id)
            &&& w.sites[key].life == v.sites[key].life
            &&& w.sites[key].fwd == v.sites[key].fwd
            &&& !w.sites[key].pend
            &&& w.tasks[id].state == (TaskState::Blocked { key, ticket: v.next_ticket })
            &&& w.next_ticket == v.next_ticket.wrapping_add(1)
            &&& w.lives == v.lives
            &&& tock is None ==> w.clock == v.clock && w.holders == v.holders
            &&& tock matches Some(t) ==> w.clock == v.clock.insert(t.handle, t.at) && w.holders
                == v.holders.insert(t.handle, (key, id))
            &&& forall|k: WakeKey|
                k != key ==> w.sites.contains_key(k) == v.sites.contains_key(k)
                    && #[trigger] w.sites[k] == v.sites[k]
        }),
{
}

/// Who is the first to wait for a key waits there alone, at a site that depends on the life
/// that it named.
pub proof fn law_wait_begins_a_line(
    v: RoomView,
    me: usize,
    key: WakeKey,
    life: usize,
    tock: Option<Tock>,
)
    requires
        me < v.lanes.len(),
        v.lanes[me as int].running is Some,
        !v.sites.contains_key(key),
        v.lives.contains(life),
    ensures
        ({
            let id = v.lanes[me as int].running->0;
            let w = gone_to_wait(v, me, key, life, tock);
            &&& w.sites.contains_key(key)
            &&& w.sites[key].line == seq![id]
            &&& w.sites[key].life == life
            &&& w.sites[key].fwd.len() == 0
            &&& !w.sites[key].pend
            &&& w.tasks[id].state == (TaskState::Blocked { key, ticket: v.next_ticket })
            &&& w.next_ticket == v.next_ticket.wrapping_add(1)
            &&& w.lives == v.lives
            &&& forall|k: WakeKey|
                k != key ==> w.sites.contains_key(k) == v.sites.contains_key(k)
                    && #[trigger] w.sites[k] == v.sites[k]
        }),
{
    let id = v.lanes[me as int].running->0;
    let w = gone_to_wait(v, me, key, life, tock);
    assert(w.sites[key].line =~= seq![id]);
}

/// Nobody comes to wait for what depends on a life that has ended: it is ready again.
pub proof fn law_no_wait_after_the_end(
    v: RoomView,
    me: usize,
    key: WakeKey,
    life: usize,
    tock: Option<Tock>,
)
    requires
        me < v.lanes.len(),
        v.lanes[me as int].running is Some,
        if v.sites.contains_key(key) {
            !v.lives.contains(v.sites[key].life) && v.sites[key].line.len() == 0
        } else {
            !v.lives.contains(life)
        },
    ensures
        ({
            let id = v.lanes[me as int].running->0;
            let w = gone_to_wait(v, me, key, life, tock);
            &&& w.tasks[id].state == TaskState::Starved
            &&& !w.sites.contains_key(key)
            &&& !w.clock.contains_key(v.next_ticket)
            &&& !w.holders.contains_key(v.next_ticket)
        }),
{
}

/// Whether `w` is the room after the task on hart `me` went to wait for `key`.
pub open spec fn went(
    v: RoomView,
    w: RoomView,
    me: usize,
    key: WakeKey,
    life: usize,
    tock: Option<Tock>,
) -> bool {
    &&& me < v.lanes.len()
    &&& v.lanes[me as int].running is Some
    &&& w == gone_to_wait(v, me, key, life, tock)
}

proof fn lemma_waits_line_up(
    rooms: Seq<RoomView>,
    mes: Seq<usize>,
    tocks: Seq<Option<Tock>>,
    key: WakeKey,
    life: usize,
    n: int,
)
    requires
        rooms.len() == mes.len() + 1,
        tocks.len() == mes.len(),
        !rooms[0].sites.contains_key(key),
        rooms[0].lives.contains(life),
        forall|i: int|
            0 <= i < mes.len() ==> went(
                rooms[i],
                rooms[i + 1],
                #[trigger] mes[i],
                key,
                life,
                tocks[i],
            ),
        0 <= n <= mes.len(),
    ensures
        rooms[n].lives == rooms[0].lives,
        n > 0 ==> {
            let s = rooms[n].sites[key];
            &&& rooms[n].sites.contains_key(key)
            &&& s.life == life
            &&& !s.pend
            &&& s.fwd.len() == 0
            &&& s.line.len() == n
            &&& forall|i: int|
                0 <= i < n ==> #[trigger] s.line[i] == rooms[i].lanes[mes[i] as int].running->0
        },
    decreases n,
{
    if n > 0 {
        lemma_waits_line_up(rooms, mes, tocks, key, life, n - 1);
        let i = n - 1;
        assert(went(rooms[i], rooms[i + 1], mes[i], key, life, tocks[i]));
        if n == 1 {
            law_wait_begins_a_line(rooms[0], mes[0], key, life, tocks[0]);
        } else {
            law_wait_joins_at_the_end(rooms[i], mes[i], key, life, tocks[i]);
        }
    }
}

/// First come, first served: tasks that went to wait for a key in some order, whichever harts
/// they ran on and whatever deadlines they had, are made ready by as many wakes in that order,
/// one by each.
pub proof fn law_woken_in_order(
    rooms: Seq<RoomView>,
    mes: Seq<usize>,
    tocks: Seq<Option<Tock>>,
    key: WakeKey,
    life: usize,
    later: Seq<RoomView>,
    by: usize,
    hads: Seq<Seq<bool>>,
    n: int,
)
    requires
        rooms.len() == mes.len() + 1,
        tocks.len() == mes.len(),
        !rooms[0].sites.contains_key(key),
        rooms[0].lives.contains(life),
        forall|i: int|
            0 <= i < mes.len() ==> went(
                rooms[i],
                rooms[i + 1],
                #[trigger] mes[i],
                key,
                life,
                tocks[i],
            ),
        later.len() == hads.len() + 1,
        hads.len() == mes.len(),
        later[0] == rooms.last(),
        forall|i: int|
            0 <= i < hads.len() ==> later[i + 1] == woken(
                later[i],
                by,
                key,
                life,
                true,
                #[trigger] hads[i],
            ),
        0 <= n < mes.len(),
    ensures
        ({
            let id = rooms[n].lanes[mes[n] as int].running->0;
            &&& later[n].sites.contains_key(key)
            &&& later[n].sites[key].line[0] == id
            &&& later[n + 1].tasks[id].state == TaskState::Starved
            &&& !later[n + 1].flying.contains(id)
        }),
{
    lemma_waits_line_up(rooms, mes, tocks, key, life, mes.len() as int);
    lemma_wakes_take(later, by, key, life, hads, rooms.last().sites[key].line, n);
    assert(toles_at(later[n], key) =~= Seq::<(usize, usize)>::empty());
    assert(later[n + 1] == woken(later[n], by, key, life, true, hads[n]));
    law_wake_serves_the_first(later[n], by, key, life, true, hads[n]);
}

proof fn lemma_wakes_take(
    later: Seq<RoomView>,
    by: usize,
    key: WakeKey,
    life: usize,
    hads: Seq<Seq<bool>>,
    line: Seq<usize>,
    n: int,
)
    requires
        later.len() == hads.len() + 1,
        hads.len() == line.len(),
        later[0].sites.contains_key(key),
        later[0].sites[key].line == line,
        later[0].sites[key].fwd.len() == 0,
        later[0].sites[key].life == life,
        later[0].lives.contains(life),
        forall|i: int|
            0 <= i < hads.len() ==> later[i + 1] == woken(
                later[i],
                by,
                key,
                life,
                true,
                #[trigger] hads[i],
            ),
        0 <= n < line.len(),
    ensures
        later[n].sites.contains_key(key),
        later[n].sites[key].line == line.skip(n),
        later[n].sites[key].fwd.len() == 0,
        later[n].lives.contains(life),
    decreases n,
{
    if n > 0 {
        let i = n - 1;
        lemma_wakes_take(later, by, key, life, hads, line, i);
        assert(later[i + 1] == woken(later[i], by, key, life, true, hads[i]));
        assert(toles_at(later[i], key) =~= Seq::<(usize, usize)>::empty());
        assert(line.skip(i).drop_first() =~= line.skip(n));
        law_wake_serves_the_first(later[i], by, key, life, true, hads[i]);
        let t = touched(later[i], key, life, true);
        assert(pruned(t, key) == t);
    } else {
        assert(line.skip(0) =~= line);
    }
}

/// Whom [`first_under`] gives stands in the line and waits under this very ticket; it is the
/// first that does, and where there is one it gives one.
pub proof fn law_ticket_is_found_exactly(
    tasks: Map<usize, crate::unit::task::TaskBody>,
    line: Seq<usize>,
    ticket: u64,
)
    ensures
        first_under(tasks, line, ticket) is None <==> forall|i: int|
            0 <= i < line.len() ==> (#[trigger] tasks[line[i]]).state->ticket != ticket,
        first_under(tasks, line, ticket) matches Some(id) ==> {
            &&& tasks[id].state->ticket == ticket
            &&& exists|i: int|
                {
                    &&& 0 <= i < line.len()
                    &&& #[trigger] line[i] == id
                    &&& forall|j: int|
                        0 <= j < i ==> (#[trigger] tasks[line[j]]).state->ticket != ticket
                }
        },
    decreases line.len(),
{
    if line.len() > 0 {
        let rest = line.drop_first();
        law_ticket_is_found_exactly(tasks, rest, ticket);
        if tasks[line[0]].state->ticket == ticket {
            assert(line[0] == line[0]);
        } else {
            let f = first_under(tasks, rest, ticket);
            assert(forall|i: int| 0 <= i < rest.len() ==> rest[i] == line[i + 1]);
            if f is None {
                assert forall|i: int| 0 <= i < line.len() implies (#[trigger] tasks[line[i]]).state->ticket
                    != ticket by {
                    if i > 0 {
                        assert(rest[i - 1] == line[i]);
                        assert(tasks[rest[i - 1]].state->ticket != ticket);
                    }
                }
            } else {
                let id = f->0;
                let i = choose|i: int|
                    {
                        &&& 0 <= i < rest.len()
                        &&& #[trigger] rest[i] == id
                        &&& forall|j: int|
                            0 <= j < i ==> (#[trigger] tasks[rest[j]]).state->ticket != ticket
                    };
                assert(line[i + 1] == id);
                assert forall|j: int| 0 <= j < i + 1 implies (#[trigger] tasks[line[j]]).state->ticket
                    != ticket by {
                    if j > 0 {
                        assert(rest[j - 1] == line[j]);
                        assert(tasks[rest[j - 1]].state->ticket != ticket);
                    }
                }
                assert(tasks[line[i + 1]].state->ticket == ticket);
            }
        }
    }
}

/// Whoever a passed deadline takes out waits under that very ticket, at the key that was
/// registered with it, and leaves the line; nobody else moves, and the deadline is off.
pub proof fn law_deadline_takes_its_own(room: Room, ticket: u64, id: usize, x: usize)
    requires
        room.wf(),
        claim(room@, ticket).1 == Some(id),
        x != id,
    ensures
        room@.holders.contains_key(ticket),
        room@.tasks[id].state == (TaskState::Blocked { key: room@.holders[ticket].0, ticket }),
        room@.sites.contains_key(room@.holders[ticket].0),
        room@.sites[room@.holders[ticket].0].line.contains(id),
        ({
            let v = room@;
            let w = claim(v, ticket).0;
            let key = v.holders[ticket].0;
            &&& w.flying == v.flying.insert(id)
            &&& w.sites.contains_key(key) ==> !w.sites[key].line.contains(id)
            &&& v.sites[key].line.contains(x) ==> w.sites.contains_key(key)
                && w.sites[key].line.contains(x)
        }),
{
    let v = room@;
    let key = v.holders[ticket].0;
    let line = v.sites[key].line;
    law_ticket_is_found_exactly(v.tasks, line, ticket);
    let i = choose|i: int| 0 <= i < line.len() && #[trigger] line[i] == id;
    let s = room.sites@[key];
    assert(s.wf(key, room.tasks@));
    assert(s.chain.order()[i] == id);
    s.chain.lemma_members(room.tasks@);
    assert(v.tasks[id] == room.tasks@[id].body());
    law_without_is_all_others(line, id, id);
    law_without_is_all_others(line, id, x);
}

/// A deadline that has passed is off, whether it found anybody or not, and nothing changes but
/// the line that it was registered for.
pub proof fn law_passed_deadline_is_off(v: RoomView, ticket: u64)
    ensures
        claim(v, ticket).0.holders == v.holders.remove(ticket),
        claim(v, ticket).0.clock == v.clock.remove(ticket),
        claim(v, ticket).0.tasks == v.tasks,
        claim(v, ticket).0.lanes == v.lanes,
        claim(v, ticket).1 is None ==> claim(v, ticket).0.flying == v.flying,
        forall|k: WakeKey|
            k != v.holders[ticket].0 ==> claim(v, ticket).0.sites.contains_key(k)
                == v.sites.contains_key(k) && #[trigger] claim(v, ticket).0.sites[k]
                == v.sites[k],
{
}

/// A deadline of a task that is not there any more, or of none, takes nobody out.
pub proof fn law_deadline_of_the_gone_is_void(v: RoomView, ticket: u64)
    requires
        !v.holders.contains_key(ticket) || !v.tasks.contains_key(v.holders[ticket].1)
            || v.tasks[v.holders[ticket].1].buried,
    ensures
        claim(v, ticket).1 is None,
        claim(v, ticket).0.sites == v.sites,
        claim(v, ticket).0.flying == v.flying,
{
}

/// Whether `id` stands in the line of the key that is registered with `ticket`, waits under
/// this ticket, and is the only one there that does.
pub open spec fn waits_under(v: RoomView, ticket: u64, id: usize) -> bool {
    let (key, who) = v.holders[ticket];
    let line = v.sites[key].line;
    &&& v.holders.contains_key(ticket)
    &&& v.tasks.contains_key(who)
    &&& !v.tasks[who].buried
    &&& v.sites.contains_key(key)
    &&& line.contains(id)
    &&& v.tasks[id].state->ticket == ticket
    &&& forall|i: int|
        0 <= i < line.len() && (#[trigger] v.tasks[line[i]]).state->ticket == ticket ==> line[i]
            == id
}

/// A passed deadline finds the task that waits under it, whoever stands before it in the line
/// and whatever tickets those have.
pub proof fn law_deadline_finds_its_own(v: RoomView, ticket: u64, id: usize)
    requires
        waits_under(v, ticket, id),
    ensures
        claim(v, ticket).1 == Some(id),
        claim(v, ticket).0.flying.contains(id),
{
    let key = v.holders[ticket].0;
    let line = v.sites[key].line;
    law_ticket_is_found_exactly(v.tasks, line, ticket);
    let i = choose|i: int| 0 <= i < line.len() && line[i] == id;
    assert(v.tasks[line[i]].state->ticket == ticket);
    assert(first_under(v.tasks, line, ticket) is Some);
    let f = first_under(v.tasks, line, ticket)->0;
    let j = choose|j: int| 0 <= j < line.len() && #[trigger] line[j] == f;
    assert(v.tasks[line[j]].state->ticket == ticket);
}

proof fn lemma_others_wait_on(v: RoomView, a: u64, b: u64, id: usize)
    requires
        waits_under(v, b, id),
        a != b,
    ensures
        waits_under(claim(v, a).0, b, id),
{
    let (w, who) = claim(v, a);
    let key = v.holders[b].0;
    let line = v.sites[key].line;
    if who is Some && v.holders[a].0 == key {
        let x = who->0;
        law_ticket_is_found_exactly(v.tasks, line, a);
        assert(v.tasks[x].state->ticket == a);
        law_without_is_all_others(line, x, id);
        let after = w.sites[key].line;
        assert forall|i: int|
            0 <= i < after.len() && (#[trigger] w.tasks[after[i]]).state->ticket
                == b implies after[i] == id by {
            assert(after.contains(after[i]));
            law_without_is_all_others(line, x, after[i]);
            let j = choose|j: int| 0 <= j < line.len() && line[j] == after[i];
            assert(v.tasks[line[j]].state->ticket == b);
        }
    }
}

/// Of the deadlines that have passed together each takes out the task that waits under it, and
/// nobody who waits under another ticket or under none is taken out.
pub proof fn law_every_due_is_taken(v: RoomView, due: Seq<u64>)
    ensures
        forall|k: int, id: usize|
            0 <= k < due.len() && #[trigger] waits_under(v, due[k], id) && (forall|j: int|
                0 <= j < due.len() && j != k ==> due[j] != due[k]) ==> claims(
                v,
                due,
            ).1.contains(id),
        forall|i: int|
            0 <= i < claims(v, due).1.len() ==> due.contains(
                v.tasks[#[trigger] claims(v, due).1[i]].state->ticket,
            ),
        claims(v, due).0.tasks == v.tasks,
        forall|b: u64, id: usize|
            waits_under(v, b, id) && !due.contains(b) ==> #[trigger] waits_under(
                claims(v, due).0,
                b,
                id,
            ),
    decreases due.len(),
{
    if due.len() > 0 {
        let rest = due.drop_last();
        let t = due.last();
        law_every_due_is_taken(v, rest);
        let r: (RoomView, Seq<usize>) = claims(v, rest);
        let w = r.0;
        let ids = r.1;
        let c: (RoomView, Option<usize>) = claim(w, t);
        let all = claims(v, due).1;
        assert(due[due.len() - 1] == t);
        assert(forall|i: int| 0 <= i < rest.len() ==> rest[i] == due[i]);
        if c.1 is Some {
            let key = w.holders[t].0;
            law_ticket_is_found_exactly(w.tasks, w.sites[key].line, t);
            assert(all == ids.push(c.1->0));
        }
        assert forall|k: int, id: usize|
            0 <= k < due.len() && #[trigger] waits_under(v, due[k], id) && (forall|j: int|
                0 <= j < due.len() && j != k ==> due[j] != due[k]) implies all.contains(id) by {
            if k == due.len() - 1 {
                assert(!rest.contains(t)) by {
                    if rest.contains(t) {
                        let j = choose|j: int| 0 <= j < rest.len() && rest[j] == t;
                        assert(due[j] == due[k]);
                    }
                }
                assert(waits_under(w, t, id));
                law_deadline_finds_its_own(w, t, id);
                assert(all[ids.len() as int] == id);
            } else {
                assert(rest[k] == due[k]);
                assert(waits_under(v, rest[k], id));
                assert forall|j: int| 0 <= j < rest.len() && j != k implies rest[j] != rest[k] by {
                    assert(due[j] != due[k]);
                }
                assert(ids.contains(id));
                let i = choose|i: int| 0 <= i < ids.len() && ids[i] == id;
                assert(all[i] == id);
            }
        }
        assert forall|i: int| 0 <= i < all.len() implies due.contains(
            v.tasks[#[trigger] all[i]].state->ticket,
        ) by {
            if i < ids.len() {
                assert(ids[i] == all[i]);
                let x = v.tasks[ids[i]].state->ticket;
                assert(rest.contains(x));
                let j = choose|j: int| 0 <= j < rest.len() && rest[j] == x;
                assert(due[j] == x);
            }
        }
        assert forall|b: u64, id: usize| waits_under(v, b, id) && !due.contains(b) implies #[trigger] waits_under(
            claims(v, due).0,
            b,
            id,
        ) by {
            if rest.contains(b) {
                let j = choose|j: int| 0 <= j < rest.len() && rest[j] == b;
                assert(due[j] == b);
            }
            assert(waits_under(w, b, id));
            lemma_others_wait_on(w, t, b, id);
        }
    }
}

/// Whether whoever is ready in `v` is ready in `w`.
pub open spec fn stays_ready(v: RoomView, w: RoomView) -> bool {
    forall|x: usize| v.tasks[x].state == TaskState::Starved ==> #[trigger] w.tasks[x].state
        == TaskState::Starved
}

/// Who is made ready is ready afterwards, and who is ready stays so.
pub proof fn lemma_released_stay_ready(v: RoomView, me: usize, ids: Seq<usize>)
    ensures
        stays_ready(v, released_all(v, me, ids)),
        released_all(v, me, ids).sites == v.sites,
        released_all(v, me, ids).lives == v.lives,
        forall|i: int|
            0 <= i < ids.len() ==> released_all(v, me, ids).tasks[#[trigger] ids[i]].state
                == TaskState::Starved,
    decreases ids.len(),
{
    if ids.len() > 0 {
        let u = released(v, me, ids[0]);
        let rest = ids.drop_first();
        lemma_released_stay_ready(u, me, rest);
        assert(stays_ready(v, u));
        let w = released_all(v, me, ids);
        assert forall|x: usize| v.tasks[x].state == TaskState::Starved implies #[trigger] w.tasks[x].state
            == TaskState::Starved by {
            assert(u.tasks[x].state == TaskState::Starved);
        }
        assert forall|i: int| 0 <= i < ids.len() implies w.tasks[#[trigger] ids[i]].state
            == TaskState::Starved by {
            if i == 0 {
                assert(u.tasks[ids[0]].state == TaskState::Starved);
            } else {
                assert(rest[i - 1] == ids[i]);
            }
        }
    }
}

/// What a tole's own site shows after it was knocked at: the first that waited there is ready
/// and out of the line, and the others moved up; where nobody waited a beacon stands if the
/// site was there and its life has not ended, or if it was not, the tole's life has not ended,
/// and there was memory.
pub open spec fn told(v: RoomView, w: RoomView, tole: usize, life: usize, had: bool) -> bool {
    let k = WakeKey::Tole { id: tole };
    let s = v.sites[k];
    if v.sites.contains_key(k) && s.line.len() > 0 {
        &&& w.tasks[s.line[0]].state == TaskState::Starved
        &&& s.line.len() > 1 ==> w.sites.contains_key(k)
        &&& s.line.len() == 1 && !s.pend && s.fwd.len() == 0 ==> !w.sites.contains_key(k)
        &&& s.line.len() == 1 && v.lives.contains(s.life) && (s.pend || s.fwd.len() > 0)
            ==> w.sites.contains_key(k)
        &&& w.sites.contains_key(k) ==> w.sites[k].line == s.line.drop_first() && w.sites[k].pend
            == s.pend && w.sites[k].life == s.life && w.sites[k].fwd == s.fwd
    } else if v.sites.contains_key(k) {
        &&& w.sites.contains_key(k) <==> v.lives.contains(s.life)
        &&& w.sites.contains_key(k) ==> w.sites[k].pend && w.sites[k].line.len() == 0
            && w.sites[k].life == s.life && w.sites[k].fwd == s.fwd
    } else {
        &&& w.sites.contains_key(k) <==> v.lives.contains(life) && had
        &&& w.sites.contains_key(k) ==> w.sites[k].pend && w.sites[k].line.len() == 0
            && w.sites[k].life == life && w.sites[k].fwd.len() == 0
    }
}

/// Whether the site at `k` is the same in both rooms, or in neither.
pub open spec fn same_site(v: RoomView, w: RoomView, k: WakeKey) -> bool {
    &&& w.sites.contains_key(k) == v.sites.contains_key(k)
    &&& v.sites.contains_key(k) ==> w.sites[k] == v.sites[k]
}

/// Whether no tole is there twice.
pub open spec fn each_once(fwd: Seq<(usize, usize)>) -> bool {
    forall|i: int, j: int|
        0 <= i < j < fwd.len() ==> (#[trigger] fwd[i]).0 != (#[trigger] fwd[j]).0
}

proof fn lemma_knocks_tell(v: RoomView, me: usize, fwd: Seq<(usize, usize)>, hads: Seq<bool>)
    requires
        each_once(fwd),
        hads.len() == fwd.len(),
    ensures
        stays_ready(v, knocked_all(v, me, fwd, hads)),
        knocked_all(v, me, fwd, hads).lives == v.lives,
        forall|i: int|
            0 <= i < fwd.len() ==> told(
                v,
                knocked_all(v, me, fwd, hads),
                (#[trigger] fwd[i]).0,
                fwd[i].1,
                hads[i],
            ),
        forall|k: WakeKey| #[trigger]
            apart(fwd, k) ==> same_site(v, knocked_all(v, me, fwd, hads), k),
    decreases fwd.len(),
{
    let w = knocked_all(v, me, fwd, hads);
    if fwd.len() > 0 {
        let key = WakeKey::Tole { id: fwd[0].0 };
        let u = knocked(v, me, key, fwd[0].1, hads[0]);
        let rest = fwd.drop_first();
        let more = hads.drop_first();
        assert(forall|i: int| 0 <= i < rest.len() ==> rest[i] == fwd[i + 1]);
        lemma_knocks_tell(u, me, rest, more);
        assert(u.lives == v.lives);
        assert(stays_ready(v, u));
        assert(told(v, u, fwd[0].0, fwd[0].1, hads[0]));
        assert forall|x: usize| v.tasks[x].state == TaskState::Starved implies #[trigger] w.tasks[x].state
            == TaskState::Starved by {
            assert(u.tasks[x].state == TaskState::Starved);
        }
        assert forall|k: WakeKey| k != key implies u.sites.contains_key(k) == v.sites.contains_key(k)
            && #[trigger] u.sites[k] == v.sites[k] by {}
        assert forall|i: int| 0 <= i < fwd.len() implies told(
            v,
            w,
            (#[trigger] fwd[i]).0,
            fwd[i].1,
            hads[i],
        ) by {
            if i == 0 {
                assert(apart(rest, key)) by {
                    assert forall|j: int| 0 <= j < rest.len() implies key != (WakeKey::Tole {
                        id: (#[trigger] rest[j]).0,
                    }) by {
                        assert(fwd[0].0 != fwd[j + 1].0);
                    }
                }
                assert(same_site(u, w, key));
                if v.sites.contains_key(key) && v.sites[key].line.len() > 0 {
                    let first = v.sites[key].line[0];
                    assert(u.tasks[first].state == TaskState::Starved);
                    assert(w.tasks[first].state == TaskState::Starved);
                }
            } else {
                assert(rest[i - 1] == fwd[i]);
                assert(more[i - 1] == hads[i]);
                let k = WakeKey::Tole { id: fwd[i].0 };
                assert(fwd[0].0 != fwd[i].0);
                assert(k != key);
                assert(u.sites[k] == v.sites[k]);
                assert(told(u, w, rest[i - 1].0, rest[i - 1].1, more[i - 1]));
            }
        }
        assert forall|k: WakeKey| #[trigger] apart(fwd, k) implies same_site(v, w, k) by {
            assert(k != (WakeKey::Tole { id: fwd[0].0 }));
            assert(same_site(v, u, k));
            assert(apart(rest, k)) by {
                assert forall|j: int| 0 <= j < rest.len() implies k != (WakeKey::Tole {
                    id: (#[trigger] rest[j]).0,
                }) by {
                    assert(rest[j] == fwd[j + 1]);
                }
            }
            assert(same_site(u, w, k));
        }
    }
}

/// Wiping a key tells every tole that hangs at it, and frees everybody who waits at it.
pub proof fn law_wipe_tells_every_tole(v: RoomView, me: usize, key: WakeKey, hads: Seq<bool>)
    requires
        v.sites.contains_key(key),
        each_once(v.sites[key].fwd),
        hads.len() == v.sites[key].fwd.len(),
    ensures
        ({
            let w = wiped(v, me, key, hads);
            let fwd = v.sites[key].fwd;
            let line = v.sites[key].line;
            &&& forall|i: int|
                0 <= i < fwd.len() && key != (WakeKey::Tole { id: (#[trigger] fwd[i]).0 })
                    ==> told(v, w, fwd[i].0, fwd[i].1, hads[i])
            &&& forall|i: int|
                0 <= i < line.len() ==> (w.tasks[#[trigger] line[i]]).state == TaskState::Starved
            &&& w.lives == v.lives
        }),
{
    let c = cleared(v, key);
    let fwd = v.sites[key].fwd;
    let line = v.sites[key].line;
    lemma_knocks_tell(c, me, fwd, hads);
    let k = knocked_all(c, me, fwd, hads);
    lemma_released_stay_ready(k, me, line);
    let w = wiped(v, me, key, hads);
    assert forall|i: int|
        0 <= i < fwd.len() && key != (WakeKey::Tole { id: (#[trigger] fwd[i]).0 }) implies told(
        v,
        w,
        fwd[i].0,
        fwd[i].1,
        hads[i],
    ) by {
        assert(told(c, k, fwd[i].0, fwd[i].1, hads[i]));
        let t = WakeKey::Tole { id: fwd[i].0 };
        if v.sites.contains_key(t) && v.sites[t].line.len() > 0 {
            assert(w.tasks[v.sites[t].line[0]].state == TaskState::Starved);
        }
    }
}

/// Waking a key tells every tole that hangs at it, whether somebody waits at the key or not.
pub proof fn law_wake_tells_every_tole(
    v: RoomView,
    me: usize,
    key: WakeKey,
    life: usize,
    had: bool,
    hads: Seq<bool>,
)
    requires
        v.sites.contains_key(key),
        v.lives.contains(life),
        each_once(v.sites[key].fwd),
        hads.len() == v.sites[key].fwd.len(),
    ensures
        ({
            let w = woken(v, me, key, life, had, hads);
            let fwd = v.sites[key].fwd;
            &&& forall|i: int|
                0 <= i < fwd.len() && key != (WakeKey::Tole { id: (#[trigger] fwd[i]).0 })
                    ==> told(v, w, fwd[i].0, fwd[i].1, hads[i])
            &&& w.lives == v.lives
        }),
{
    let t = pruned(touched(v, key, life, had), key);
    let fwd = v.sites[key].fwd;
    lemma_knocks_tell(t, me, fwd, hads);
    let k = knocked_all(t, me, fwd, hads);
    let w = woken(v, me, key, life, had, hads);
    assert forall|i: int|
        0 <= i < fwd.len() && key != (WakeKey::Tole { id: (#[trigger] fwd[i]).0 }) implies told(
        v,
        w,
        fwd[i].0,
        fwd[i].1,
        hads[i],
    ) by {
        assert(told(t, k, fwd[i].0, fwd[i].1, hads[i]));
        let q = WakeKey::Tole { id: fwd[i].0 };
        if v.sites.contains_key(q) && v.sites[q].line.len() > 0 {
            assert(k.tasks[v.sites[q].line[0]].state == TaskState::Starved);
        }
    }
}

/// A key whose life has ended is woken for nothing: its site goes, and nothing else happens.
pub proof fn law_wake_after_the_end(
    v: RoomView,
    me: usize,
    key: WakeKey,
    life: usize,
    had: bool,
    hads: Seq<bool>,
)
    requires
        !v.lives.contains(life),
    ensures
        ({
            let w = woken(v, me, key, life, had, hads);
            &&& !w.sites.contains_key(key)
            &&& w.tasks == v.tasks
            &&& w.lanes == v.lanes
            &&& forall|k: WakeKey|
                k != key ==> w.sites.contains_key(k) == v.sites.contains_key(k)
                    && #[trigger] w.sites[k] == v.sites[k]
        }),
{
}

proof fn lemma_knocks_stay_ready(
    v: RoomView,
    me: usize,
    fwd: Seq<(usize, usize)>,
    hads: Seq<bool>,
    key: WakeKey,
)
    requires
        !(key is Tole),
    ensures
        stays_ready(v, knocked_all(v, me, fwd, hads)),
        same_site(v, knocked_all(v, me, fwd, hads), key),
        knocked_all(v, me, fwd, hads).lives == v.lives,
    decreases fwd.len(),
{
    if fwd.len() > 0 {
        let u = knocked(v, me, WakeKey::Tole { id: fwd[0].0 }, fwd[0].1, hads[0]);
        let rest = fwd.drop_first();
        lemma_knocks_stay_ready(u, me, rest, hads.drop_first(), key);
        let w = knocked_all(v, me, fwd, hads);
        assert(w == knocked_all(u, me, rest, hads.drop_first()));
        assert(stays_ready(v, u));
        assert forall|x: usize| v.tasks[x].state == TaskState::Starved implies #[trigger] w.tasks[x].state
            == TaskState::Starved by {
            assert(u.tasks[x].state == TaskState::Starved);
        }
    }
}

/// Wiping a key that is no tole's frees everybody who waits at it and takes the site away; who
/// is ready stays ready, and the site at any other key that is no tole's stays as it is.
pub proof fn lemma_wipe_frees(
    v: RoomView,
    me: usize,
    key: WakeKey,
    hads: Seq<bool>,
    other: WakeKey,
)
    requires
        !(key is Tole),
        !(other is Tole),
    ensures
        ({
            let w = wiped(v, me, key, hads);
            &&& !w.sites.contains_key(key)
            &&& v.sites.contains_key(key) ==> forall|i: int|
                0 <= i < v.sites[key].line.len() ==> w.tasks[#[trigger] v.sites[key].line[i]].state
                    == TaskState::Starved
            &&& forall|x: usize| v.tasks[x].state == TaskState::Starved ==> #[trigger] w.tasks[x].state
                == TaskState::Starved
            &&& other != key ==> same_site(v, w, other)
            &&& w.lives == v.lives
        }),
{
    if v.sites.contains_key(key) {
        let c = cleared(v, key);
        let fwd = v.sites[key].fwd;
        lemma_knocks_stay_ready(c, me, fwd, hads, key);
        lemma_knocks_stay_ready(c, me, fwd, hads, other);
        let k = knocked_all(c, me, fwd, hads);
        lemma_released_stay_ready(k, me, v.sites[key].line);
        let w = wiped(v, me, key, hads);
        assert forall|x: usize| v.tasks[x].state == TaskState::Starved implies #[trigger] w.tasks[x].state
            == TaskState::Starved by {
            assert(k.tasks[x].state == TaskState::Starved);
        }
    }
}

/// Deadlines that pass are settled in their order: whom a later one takes out comes after all
/// whom the earlier ones did.
pub proof fn law_deadlines_pass_in_order(v: RoomView, due: Seq<u64>, t: u64)
    ensures
        ({
            let before: (RoomView, Seq<usize>) = claims(v, due);
            let after: (RoomView, Seq<usize>) = claims(v, due.push(t));
            let one: (RoomView, Option<usize>) = claim(before.0, t);
            &&& after.0 == one.0
            &&& one.1 is None ==> after.1 == before.1
            &&& one.1 matches Some(id) ==> after.1 == before.1.push(id)
        }),
        claims(v, Seq::<u64>::empty()).1.len() == 0,
{
    assert(due.push(t).drop_last() =~= due);
}

/// Those who are made ready together are made ready in their order, each as it would be alone.
pub proof fn law_ready_in_order(v: RoomView, me: usize, ids: Seq<usize>, x: usize)
    ensures
        released_all(v, me, ids.push(x)) == released(released_all(v, me, ids), me, x),
        risen_all(v, me, ids.push(x)) == risen_all(v, me, ids).risen(me, x),
    decreases ids.len(),
{
    let all = ids.push(x);
    if ids.len() == 0 {
        assert(all.drop_first() =~= Seq::<usize>::empty());
        assert(released_all(released(v, me, x), me, all.drop_first()) == released(v, me, x));
        assert(risen_all(v.risen(me, x), me, all.drop_first()) == v.risen(me, x));
    } else {
        assert(all.drop_first() =~= ids.drop_first().push(x));
        law_ready_in_order(released(v, me, ids[0]), me, ids.drop_first(), x);
        law_ready_in_order(v.risen(me, ids[0]), me, ids.drop_first(), x);
    }
}

/// Toles are knocked at in the order in which they hang.
pub proof fn law_knocks_go_in_order(
    v: RoomView,
    me: usize,
    fwd: Seq<(usize, usize)>,
    hads: Seq<bool>,
    tole: usize,
    life: usize,
    had: bool,
)
    requires
        hads.len() == fwd.len(),
    ensures
        knocked_all(v, me, fwd.push((tole, life)), hads.push(had)) == knocked(
            knocked_all(v, me, fwd, hads),
            me,
            WakeKey::Tole { id: tole },
            life,
            had,
        ),
    decreases fwd.len(),
{
    let all = fwd.push((tole, life));
    let more = hads.push(had);
    if fwd.len() == 0 {
        let u = knocked(v, me, WakeKey::Tole { id: tole }, life, had);
        assert(all[0] == (tole, life) && more[0] == had);
        assert(all.drop_first().len() == 0);
        assert(knocked_all(u, me, all.drop_first(), more.drop_first()) == u);
    } else {
        assert(all.drop_first() =~= fwd.drop_first().push((tole, life)));
        assert(more.drop_first() =~= hads.drop_first().push(had));
        let u = knocked(v, me, WakeKey::Tole { id: fwd[0].0 }, fwd[0].1, hads[0]);
        law_knocks_go_in_order(u, me, fwd.drop_first(), hads.drop_first(), tole, life, had);
    }
}

/// A knock is a wake of the tole alone: the first that waits there is made ready, else a beacon
/// is left.
pub proof fn law_knock_serves_the_first(
    v: RoomView,
    me: usize,
    tole: usize,
    life: usize,
    had: bool,
)
    ensures
        told(v, knocked(v, me, WakeKey::Tole { id: tole }, life, had), tole, life, had),
        forall|k: WakeKey|
            k != (WakeKey::Tole { id: tole }) ==> #[trigger] same_site(
                v,
                knocked(v, me, WakeKey::Tole { id: tole }, life, had),
                k,
            ),
{
}

} // verus!
