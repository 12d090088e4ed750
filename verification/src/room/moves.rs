//! What single moves of the room do: where work goes, who runs, what hangs where, who leaves.
use vstd::prelude::*;
use crate::bits::{Ipi, MAX_HART_SLOTS};
use crate::room::{Room, RoomView, new_body};
use crate::room::boot::{founded_by, signed_up};
use crate::room::cascade::{law_nudge_reaches_one, lemma_living_is};
use crate::room::conductor::{Score, Verdict, covers, distance, halted, is_done, pick_of, picked};
use crate::mail::hole::{seen_again, waited};
use crate::room::lines::law_every_due_is_taken;
use crate::room::messenger::doom::{above, in_line, is_batch};
use crate::room::messenger::handoff::{GateError, Handoff};
use crate::room::messenger::reap::{
    buried_one, buried_with, departed, leaving_of, paid, reaped, remains_of, sole, team_pruned,
};
use crate::room::messenger::wait::clock::{batch_of, due_of, earlier, passed};
use crate::room::messenger::wait::site::WakeKey;
use crate::room::messenger::wait::{
    answered, beacon_taken, block_contract, block_given, claims, forward_contract, line_total, risen_all, cleared, forward_given, hangs_at, knocked, knocked_all, released, released_all,
    space_keys, swept, unforwarded, wiped,
};
use crate::room::laws::lemma_living_has;
use crate::room::messenger::{EXIT_CASCADE, EXIT_DOOM, EXIT_FAULT, SiteStats, Tally, tallied};
use crate::room::scheduler::fetch::{BEACON_TICK, WFI_FAR, marked, nap, redeemed, taken_up};
use crate::room::scheduler::beacon::{Beacon, look_at};
use crate::room::scheduler::ident::Badge;
use crate::room::scheduler::table::{launched, ripped, runs_on, survivors};
use crate::unit::task::{TaskBody, TaskIdent, TaskState};

verus! {

proof fn lemma_nearest(score: Score, n: nat) -> (best: Option<int>)
    ensures
        best is None ==> forall|h: int| 0 <= h < n ==> !#[trigger] score.waits(h),
        best matches Some(b) ==> 0 <= b < n && score.waits(b) && forall|h: int|
            0 <= h < n && #[trigger] score.waits(h) ==> distance(score.cursor, b) < distance(
                score.cursor,
                h,
            ) || (distance(score.cursor, b) == distance(score.cursor, h) && b <= h),
    decreases n,
{
    if n == 0 {
        None
    } else {
        let best = lemma_nearest(score, (n - 1) as nat);
        let h = n - 1;
        if score.waits(h) {
            match best {
                None => Some(h),
                Some(b) => if distance(score.cursor, h) < distance(score.cursor, b) {
                    Some(h)
                } else {
                    Some(b)
                },
            }
        } else {
            best
        }
    }
}

proof fn lemma_distance(seat: usize, hart: int)
    ensures
        distance(seat, hart) == (hart - seat) % 64,
{
}

proof fn lemma_round(a: int, n: int) -> (r: int)
    requires
        0 <= a < n,
    ensures
        r == (a + 1) % n,
        a + 1 == n ==> r == 0,
        a + 1 < n ==> r == a + 1,
{
    if a + 1 < n {
        vstd::arithmetic::div_mod::lemma_small_mod((a + 1) as nat, n as nat);
    } else {
        vstd::arithmetic::div_mod::lemma_mod_self_0(n);
    }
    (a + 1) % n
}

proof fn lemma_pick(score: Score, me: usize, n: usize)
    requires
        0 < n <= MAX_HART_SLOTS,
        forall|h: int| #[trigger] score.waits(h) ==> 0 <= h < n,
    ensures
        picked(score, me, n, pick_of(score, me, n)),
{
    let best = lemma_nearest(score, n as nat);
    if best is Some {
        let b = best->0;
        assert(score.waits(b as usize as int));
        assert(picked(score, me, n, b as usize));
    } else {
        assert(!exists|h: int| #[trigger] score.waits(h));
        let to = score.cursor as int % n as int;
        vstd::arithmetic::div_mod::lemma_mod_bound(score.cursor as int, n as int);
        let up = lemma_round(to, n as int);
        if n > 1 && to == me {
            assert(picked(score, me, n, up as usize));
        } else {
            assert(picked(score, me, n, to as usize));
        }
    }
}

/// Work goes to a waiting hart where there is one, to the nearest from the cursor on, going up
/// in a word of 64 and round, and to the lowest of those that are equally near. Where nobody
/// waits it goes to the hart at which the cursor stands, and past the asking hart if there is
/// another.
pub proof fn law_work_goes_to_who_waits(score: Score, me: usize, n: usize)
    requires
        0 < n <= MAX_HART_SLOTS,
        forall|h: int| #[trigger] score.waits(h) ==> 0 <= h < n,
    ensures
        pick_of(score, me, n) < n,
        (exists|h: int| #[trigger] score.waits(h)) ==> score.waits(pick_of(score, me, n) as int),
        forall|h: int| #[trigger]
            score.waits(h) ==> {
                let p = pick_of(score, me, n) as int;
                let far = (p - score.cursor) % 64;
                let farther = (h - score.cursor) % 64;
                far < farther || (far == farther && p <= h)
            },
        (forall|h: int| !#[trigger] score.waits(h)) ==> {
            let p = pick_of(score, me, n);
            &&& n > 1 ==> p != me
            &&& score.cursor % n != me || n == 1 ==> p == score.cursor % n
            &&& score.cursor % n == me && n > 1 ==> p == me + 1 || (p == 0 && me == n - 1)
        },
{
    lemma_pick(score, me, n);
    let p = pick_of(score, me, n);
    let to = score.cursor as int % n as int;
    vstd::arithmetic::div_mod::lemma_mod_bound(score.cursor as int, n as int);
    let up = lemma_round(to, n as int);
    lemma_distance(score.cursor, p as int);
    assert forall|h: int| #[trigger] score.waits(h) implies {
        let far = (p - score.cursor) % 64;
        let farther = (h - score.cursor) % 64;
        far < farther || (far == farther && p <= h)
    } by {
        lemma_distance(score.cursor, h);
    }
}

/// A task that is made ready goes to the end of one hart's queue, the hart that
/// [`law_work_goes_to_who_waits`] says, and of no other; if that hart waits it is interrupted,
/// it and no other, and if not nobody is.
pub proof fn law_ready_is_queued_last(v: RoomView, me: usize, id: usize)
    requires
        0 < v.lanes.len() <= MAX_HART_SLOTS,
        forall|h: int| #[trigger] v.score.waits(h) ==> 0 <= h < v.lanes.len(),
    ensures
        ({
            let w = v.risen(me, id);
            let p = pick_of(v.score, me, v.lanes.len() as usize) as int;
            &&& w.tasks[id].state == TaskState::Starved
            &&& w.tasks[id].ident == v.tasks[id].ident
            &&& w.tasks[id].heirs == v.tasks[id].heirs
            &&& w.flying == v.flying.remove(id)
            &&& w.lanes.len() == v.lanes.len()
            &&& w.lanes[p].queue == v.lanes[p].queue.push(id)
            &&& w.lanes[p].running == v.lanes[p].running
            &&& w.lanes[p].badge == v.lanes[p].badge
            &&& forall|h: int| 0 <= h < v.lanes.len() && h != p ==> #[trigger] w.lanes[h] == v.lanes[h]
            &&& v.score.waits(p) ==> w.outbox.len() == v.outbox.len() + 1 && (forall|h: int|
                #[trigger] w.outbox.last().reaches(h) <==> h == p) && w.score.kicks
                == v.score.kicks.wrapping_add(1) && w.score.fallback == v.score.fallback
            &&& !v.score.waits(p) ==> w.outbox == v.outbox && w.score.kicks == v.score.kicks
                && w.score.fallback == v.score.fallback.wrapping_add(1)
            &&& w.score.cursor == v.score.cursor.wrapping_add(1)
            &&& w.score.waiting == v.score.waiting
            &&& w.score.pushed == v.score.pushed
            &&& w.score.reaped == v.score.reaped
            &&& w.sites == v.sites
            &&& w.clock == v.clock
            &&& w.holders == v.holders
            &&& forall|x: usize| x != id ==> #[trigger] w.tasks[x] == v.tasks[x]
        }),
{
    law_work_goes_to_who_waits(v.score, me, v.lanes.len() as usize);
    let p = pick_of(v.score, me, v.lanes.len() as usize) as int;
    law_nudge_reaches_one(p);
}

/// Who is let go from a wait keeps no deadline: its own ticket is off, and everybody else's
/// stays.
pub proof fn law_release_ends_the_deadline(v: RoomView, me: usize, id: usize, other: u64)
    requires
        v.tasks[id].state is Blocked,
        other != v.tasks[id].state->ticket,
    ensures
        ({
            let w = released(v, me, id);
            let ticket = v.tasks[id].state->ticket;
            &&& w.tasks[id].state == TaskState::Starved
            &&& !w.clock.contains_key(ticket)
            &&& !w.holders.contains_key(ticket)
            &&& w.clock.contains_key(other) == v.clock.contains_key(other)
            &&& v.clock.contains_key(other) ==> w.clock[other] == v.clock[other]
            &&& w.holders.contains_key(other) == v.holders.contains_key(other)
            &&& v.holders.contains_key(other) ==> w.holders[other] == v.holders[other]
        }),
{
}

/// Who leaves a hart makes room for the first of its queue, which runs for a whole quantum of 8
/// ticks on the hart's own stack; where nobody is ready the hart is empty.
pub proof fn law_next_in_the_queue_runs(v: RoomView, h: int)
    requires
        0 <= h < v.lanes.len(),
        v.lanes[h].running is Some,
    ensures
        ({
            let w = v.swapped_out(h);
            let l = v.lanes[h];
            let gone = l.running->0;
            &&& w.flying == v.flying.insert(gone)
            &&& l.queue.len() == 0 ==> w.lanes[h].running is None && w.lanes[h].queue == l.queue
                && w.tasks == v.tasks && w.lanes[h].badge == Badge::left_by(v.tasks[gone].ident)
            &&& l.queue.len() > 0 ==> {
                let next = l.queue[0];
                &&& w.lanes[h].running == Some(next)
                &&& w.lanes[h].badge == Badge::Live(v.tasks[next].ident)
                &&& w.lanes[h].queue == l.queue.drop_first()
                &&& w.tasks[next].state == (TaskState::Running { ticks_left: 8 })
                &&& w.tasks[next].words.kernel_sp == l.edge
                &&& w.tasks[next].words.tp == (if v.tasks[next].ident.kernel {
                    l.anchor
                } else {
                    v.tasks[next].words.tp
                })
                &&& w.tasks[next].ident == v.tasks[next].ident
                &&& forall|x: usize| x != next ==> #[trigger] w.tasks[x] == v.tasks[x]
            }
            &&& forall|j: int| 0 <= j < v.lanes.len() && j != h ==> #[trigger] w.lanes[j] == v.lanes[j]
            &&& w.sites == v.sites
        }),
{
}

/// Who gives way goes to the end of the queue and the first of it runs for a whole quantum of 8
/// ticks; where nobody else is ready nothing changes.
pub proof fn law_giving_way_turns_the_queue(v: RoomView, h: int)
    requires
        0 <= h < v.lanes.len(),
        v.lanes[h].running is Some,
        !v.lanes[h].queue.contains(v.lanes[h].running->0),
    ensures
        ({
            let w = v.given_way(h);
            let l = v.lanes[h];
            let cur = l.running->0;
            &&& l.queue.len() == 0 ==> w.lanes[h] == l && w.tasks == v.tasks
            &&& l.queue.len() > 0 ==> {
                let next = l.queue[0];
                &&& w.lanes[h].running == Some(next)
                &&& w.lanes[h].badge == Badge::Live(v.tasks[next].ident)
                &&& w.lanes[h].queue.len() == l.queue.len()
                &&& w.lanes[h].queue.last() == cur
                &&& forall|i: int|
                    0 <= i < l.queue.len() - 1 ==> #[trigger] w.lanes[h].queue[i] == l.queue[i + 1]
                &&& w.tasks[cur].state == TaskState::Starved
                &&& w.tasks[next].state == (TaskState::Running { ticks_left: 8 })
            }
            &&& w.flying == v.flying
        }),
{
    let l = v.lanes[h];
    if l.queue.len() > 0 {
        assert(l.queue.contains(l.queue[0]));
    }
}

/// A tick takes one from what is left of the running task's quantum, and only the last one of
/// it takes the hart away.
pub proof fn law_tick_counts_down(v: RoomView, h: int)
    requires
        0 <= h < v.lanes.len(),
        v.lanes[h].running is Some,
        v.tasks[v.lanes[h].running->0].state is Running,
    ensures
        ({
            let w = v.ticked(h);
            let cur = v.lanes[h].running->0;
            let left = v.tasks[cur].state->ticks_left;
            &&& left > 1 ==> w.lanes == v.lanes && w.tasks[cur].state == (TaskState::Running {
                ticks_left: (left - 1) as u32,
            })
            &&& left <= 1 ==> w == v.given_way(h)
        }),
{
    assert(v.lanes.update(h, v.lanes[h]) =~= v.lanes);
}

/// A hart that takes up work takes the first of its queue, which runs for a whole quantum of 8
/// ticks.
pub proof fn law_first_ready_is_taken_up(v: RoomView, h: int)
    requires
        0 <= h < v.lanes.len(),
        v.lanes[h].queue.len() > 0,
        !v.flying.contains(v.lanes[h].queue[0]),
    ensures
        ({
            let w = taken_up(v, h);
            let first = v.lanes[h].queue[0];
            &&& w.lanes[h].running == Some(first)
            &&& w.lanes[h].badge == Badge::Live(v.tasks[first].ident)
            &&& w.lanes[h].queue == v.lanes[h].queue.drop_first()
            &&& w.tasks[first].state == (TaskState::Running { ticks_left: 8 })
            &&& w.flying == v.flying
        }),
{
    assert(taken_up(v, h).flying =~= v.flying);
}

/// A hart that comes to rest while the machine is ending looks again after a quarter of a
/// million ticks; otherwise it sleeps until it is called.
pub proof fn law_rest_is_short_at_the_end(ending: bool)
    ensures
        ending ==> nap(ending) == 250_000,
        !ending ==> nap(ending) == 0x1000_0000_0000_0000,
{
}

/// A new task is held, belongs where it was said to, has founded nothing and is not cleared
/// away.
pub proof fn law_newcomer_is_held(ident: TaskIdent)
    ensures
        new_body(ident).ident == ident,
        new_body(ident).state == TaskState::Held,
        new_body(ident).heirs.len() == 0,
        !new_body(ident).buried,
{
}

/// A team that is founded is empty, knows its founder, and is the founder's latest heir; no
/// other team and no other task changes.
pub proof fn law_founding_makes_an_heir(v: RoomView, t: usize, sire: Option<usize>, space: usize)
    ensures
        ({
            let w = founded_by(v, t, sire, space);
            &&& w.teams.contains_key(t)
            &&& w.teams[t].sire == sire
            &&& w.teams[t].space == space
            &&& w.teams[t].tasks.len() == 0
            &&& forall|u: usize| u != t ==> #[trigger] w.teams[u] == v.teams[u]
            &&& sire matches Some(s) ==> w.tasks[s].heirs == v.tasks[s].heirs.push(t)
                && w.tasks[s].state == v.tasks[s].state && w.tasks[s].ident == v.tasks[s].ident
            &&& forall|x: usize| sire != Some(x) ==> #[trigger] w.tasks[x] == v.tasks[x]
        }),
{
}

/// Who signs up is the last on the team's list, and the others stay before it.
pub proof fn law_signing_up_joins_the_list(v: RoomView, t: usize, id: usize)
    ensures
        ({
            let w = signed_up(v, t, id);
            &&& w.teams[t].tasks == v.teams[t].tasks.push(id)
            &&& w.teams[t].sire == v.teams[t].sire
            &&& w.teams[t].space == v.teams[t].space
            &&& w.tasks == v.tasks
            &&& forall|u: usize| u != t ==> #[trigger] w.teams[u] == v.teams[u]
        }),
{
}

/// A task that is launched is the last in the queue of the launching hart.
pub proof fn law_launched_is_queued_here(v: RoomView, me: usize, id: usize)
    requires
        me < v.lanes.len(),
    ensures
        launched(v, me, id).lanes[me as int].queue == v.lanes[me as int].queue.push(id),
        launched(v, me, id).flying == v.flying.remove(id),
        launched(v, me, id).tasks == v.tasks,
        forall|h: int|
            0 <= h < v.lanes.len() && h != me ==> #[trigger] launched(v, me, id).lanes[h]
                == v.lanes[h],
{
}

/// A team is above another if it is the team of the living task that founded the other, or
/// above that one; and no team is above a team that nobody living founded.
pub proof fn law_above_follows_founders(v: RoomView, actor: usize, target: usize)
    ensures
        v.teams.contains_key(target) && v.teams[target].sire is None ==> !above(v, actor, target),
        !v.teams.contains_key(target) ==> !above(v, actor, target),
        v.teams.contains_key(target) && v.teams[target].sire is Some ==> {
            let s = v.teams[target].sire->0;
            let p = v.tasks[s].ident.team;
            &&& !v.tasks.contains_key(s) || v.tasks[s].buried ==> !above(v, actor, target)
            &&& v.tasks.contains_key(s) && !v.tasks[s].buried && p < target ==> (above(
                v,
                actor,
                target,
            ) <==> p == actor || above(v, actor, p))
        },
{
}

/// A sweep takes up four notes, or all where there are fewer.
pub proof fn law_sweep_takes_four(v: RoomView, batch: Seq<(usize, usize)>)
    requires
        is_batch(v, batch),
    ensures
        v.doomed.dom().len() >= 4 ==> batch.len() == 4,
        v.doomed.dom().len() < 4 ==> batch.len() == v.doomed.dom().len(),
{
}

/// The reasons that the room itself gives are told apart from each other and from a program's
/// own.
pub proof fn law_reasons_are_apart()
    ensures
        EXIT_FAULT == 0xFFFF_FFFF,
        EXIT_DOOM == 0xFFFF_FFFE,
        EXIT_CASCADE == 0xFFFF_FFFD,
        BEACON_TICK < WFI_FAR,
{
}

/// Who has ended lies last among the husks, once, and is in no other place; whoever ended
/// before stays as it is.
pub proof fn law_ended_becomes_a_husk(v: RoomView, tid: usize)
    ensures
        ({
            let w = reaped(v, tid);
            &&& w.tasks[tid].state is Reaped
            &&& !(v.tasks[tid].state is Reaped) ==> w.husks == v.husks.push(tid) && w.flying
                == v.flying.remove(tid) && w.tasks[tid].ident == v.tasks[tid].ident
            &&& v.tasks[tid].state is Reaped ==> w == v
            &&& reaped(w, tid) == w
            &&& forall|x: usize| x != tid ==> #[trigger] w.tasks[x] == v.tasks[x]
            &&& w.lanes == v.lanes
            &&& w.sites == v.sites
            &&& w.teams == v.teams
        }),
{
}

/// Who quits leaves its hart doomed and in flight, with the reason that was left for it, and
/// the first of the queue runs.
pub proof fn law_quitting_leaves_the_hart(v: RoomView, me: usize)
    requires
        me < v.lanes.len() <= MAX_HART_SLOTS,
        v.lanes[me as int].running is Some,
        v.reasons.len() == MAX_HART_SLOTS,
        !v.lanes[me as int].queue.contains(v.lanes[me as int].running->0),
    ensures
        ({
            let w = departed(v, me);
            let id = v.lanes[me as int].running->0;
            let queue = v.lanes[me as int].queue;
            &&& leaving_of(v, me).tid == id
            &&& leaving_of(v, me).reason == v.reasons[me as int]
            &&& w.reasons[me as int] == 0
            &&& w.tasks[id].state == TaskState::Doomed
            &&& w.flying == v.flying.insert(id)
            &&& queue.len() == 0 ==> w.lanes[me as int].running is None
            &&& queue.len() > 0 ==> w.lanes[me as int].running == Some(queue[0])
                && w.lanes[me as int].queue == queue.drop_first()
        }),
{
    let queue = v.lanes[me as int].queue;
    if queue.len() > 0 {
        assert(queue.contains(queue[0]));
    }
}

/// Giving back one husk is counted once.
pub proof fn law_paying_counts_one(v: RoomView)
    ensures
        paid(v).score.reaped == v.score.reaped.wrapping_add(1),
        paid(v).score.pushed == v.score.pushed,
        paid(v).tasks == v.tasks,
        paid(v).husks == v.husks,
{
}

/// What is left of a task to be given back is its own: its stack, its trap frame, its space and
/// its team.
pub proof fn law_remains_are_its_own(v: RoomView, id: usize)
    ensures
        remains_of(v, id).tid == id,
        remains_of(v, id).team == v.tasks[id].ident.team,
        remains_of(v, id).space == v.tasks[id].ident.space,
        remains_of(v, id).stack == v.tasks[id].ident.stack,
        remains_of(v, id).trap == v.tasks[id].ident.trap,
{
}

proof fn lemma_swept_frees(v: RoomView, me: usize, keys: Seq<WakeKey>)
    requires
        keys.no_duplicates(),
        forall|k: WakeKey| #[trigger] keys.contains(k) ==> v.sites.contains_key(k),
    ensures
        forall|k: WakeKey| #[trigger] keys.contains(k) ==> !swept(v, me, keys).sites.contains_key(k),
        forall|k: WakeKey|
            !keys.contains(k) ==> #[trigger] swept(v, me, keys).sites.contains_key(k)
                == v.sites.contains_key(k) && (v.sites.contains_key(k) ==> swept(
                v,
                me,
                keys,
            ).sites[k] == v.sites[k]),
        swept(v, me, keys).teams == v.teams,
        swept(v, me, keys).husks == v.husks,
        swept(v, me, keys).lives == v.lives,
        forall|x: usize| v.tasks[x].state == TaskState::Starved ==> (#[trigger] swept(
            v,
            me,
            keys,
        ).tasks[x]).state == TaskState::Starved,
        forall|k: WakeKey, i: int| #![trigger v.sites[k].line[i], keys.contains(k)]
            keys.contains(k) && 0 <= i < v.sites[k].line.len() ==> swept(
                v,
                me,
                keys,
            ).tasks[v.sites[k].line[i]].state == TaskState::Starved,
    decreases keys.len(),
{
    if keys.len() > 0 {
        let rest = keys.drop_last();
        let key = keys.last();
        assert(forall|i: int| 0 <= i < rest.len() ==> rest[i] == keys[i]);
        assert(keys[keys.len() - 1] == key);
        assert forall|k: WakeKey| #[trigger] keys.contains(k) <==> rest.contains(k) || k == key by {
            if keys.contains(k) {
                let i = choose|i: int| 0 <= i < keys.len() && keys[i] == k;
                if i < rest.len() {
                    assert(rest[i] == k);
                }
            }
            if rest.contains(k) {
                let i = choose|i: int| 0 <= i < rest.len() && rest[i] == k;
                assert(keys[i] == k);
            }
        }
        assert(!rest.contains(key)) by {
            if rest.contains(key) {
                let i = choose|i: int| 0 <= i < rest.len() && rest[i] == key;
                assert(keys[i] == keys[keys.len() - 1]);
            }
        }
        assert forall|k: WakeKey| #[trigger] rest.contains(k) implies v.sites.contains_key(k) by {
            assert(keys.contains(k));
        }
        assert(keys.contains(key));
        lemma_swept_frees(v, me, rest);
        let w = swept(v, me, rest);
        let c = cleared(w, key);
        let line = w.sites[key].line;
        let u = swept(v, me, keys);
        assert(w.sites.contains_key(key) == v.sites.contains_key(key));
        assert(line == v.sites[key].line);
        lemma_frees(c, me, line);
        assert(u == released_all(c, me, line));
        assert forall|k: WakeKey| #[trigger] keys.contains(k) implies !u.sites.contains_key(k) by {
            if k != key {
                assert(rest.contains(k));
            }
        }
        assert forall|k: WakeKey| !keys.contains(k) implies #[trigger] u.sites.contains_key(k)
            == v.sites.contains_key(k) && (v.sites.contains_key(k) ==> u.sites[k] == v.sites[k]) by {
            assert(!rest.contains(k));
            assert(w.sites.contains_key(k) == v.sites.contains_key(k));
        }
        assert forall|x: usize| v.tasks[x].state == TaskState::Starved implies (
        #[trigger] u.tasks[x]).state == TaskState::Starved by {
            assert(w.tasks[x].state == TaskState::Starved);
        }
        assert forall|k: WakeKey, i: int| #![trigger v.sites[k].line[i], keys.contains(k)]
            keys.contains(k) && 0 <= i < v.sites[k].line.len() implies u.tasks[v.sites[k].line[i]].state
            == TaskState::Starved by {
            if k == key {
                assert(line[i] == v.sites[k].line[i]);
            } else {
                assert(rest.contains(k));
                assert(w.tasks[v.sites[k].line[i]].state == TaskState::Starved);
            }
        }
    }
}

proof fn lemma_frees(v: RoomView, me: usize, ids: Seq<usize>)
    ensures
        released_all(v, me, ids).sites == v.sites,
        released_all(v, me, ids).lives == v.lives,
        released_all(v, me, ids).teams == v.teams,
        released_all(v, me, ids).husks == v.husks,
        forall|x: usize| v.tasks[x].state == TaskState::Starved ==> (#[trigger] released_all(
            v,
            me,
            ids,
        ).tasks[x]).state == TaskState::Starved,
        forall|i: int|
            0 <= i < ids.len() ==> released_all(v, me, ids).tasks[#[trigger] ids[i]].state
                == TaskState::Starved,
    decreases ids.len(),
{
    if ids.len() > 0 {
        let u = released(v, me, ids[0]);
        let rest = ids.drop_first();
        lemma_frees(u, me, rest);
        let w = released_all(v, me, ids);
        assert(w == released_all(u, me, rest));
        assert forall|x: usize| v.tasks[x].state == TaskState::Starved implies (
        #[trigger] w.tasks[x]).state == TaskState::Starved by {
            assert(u.tasks[x].state == TaskState::Starved);
        }
        assert forall|i: int| 0 <= i < ids.len() implies w.tasks[#[trigger] ids[i]].state
            == TaskState::Starved by {
            if i == 0 {
                assert(u.tasks[ids[0]].state == TaskState::Starved);
            } else {
                assert(rest[i - 1] == ids[i]);
            }
        }
    }
}

/// A space that goes leaves nobody waiting for a word of it: everybody who did is ready, no
/// site of the space is left, and every other site stays as it is.
pub proof fn law_space_goes_with_its_words(
    v: RoomView,
    me: usize,
    space: usize,
    keys: Seq<WakeKey>,
    slot: usize,
    i: int,
    other: WakeKey,
)
    requires
        space_keys(v, space, keys),
        !(other is Space && other->Space_space == space),
    ensures
        ({
            let w = swept(v, me, keys);
            let key = WakeKey::Space { space, slot };
            &&& !w.sites.contains_key(key)
            &&& v.sites.contains_key(key) && 0 <= i < v.sites[key].line.len()
                ==> w.tasks[v.sites[key].line[i]].state == TaskState::Starved
            &&& w.sites.contains_key(other) == v.sites.contains_key(other)
            &&& v.sites.contains_key(other) ==> w.sites[other] == v.sites[other]
        }),
{
    lemma_swept_frees(v, me, keys);
    let key = WakeKey::Space { space, slot };
    if v.sites.contains_key(key) {
        assert(keys.contains(key));
        assert(v.sites[key].line[i] == v.sites[key].line[i]);
    } else {
        assert(!keys.contains(key));
        assert(swept(v, me, keys).sites.contains_key(key) == v.sites.contains_key(key));
    }
    assert(!keys.contains(other));
    assert(swept(v, me, keys).sites.contains_key(other) == v.sites.contains_key(other));
}

/// A tole that hangs at a key hangs there once, with its life, after those that hung there
/// before; an eighth is the last; a tole that hangs there already changes nothing.
pub proof fn law_hanging_adds_one_tole(
    v: RoomView,
    w: RoomView,
    key: WakeKey,
    life: usize,
    tole: usize,
    tole_life: usize,
    ok: bool,
)
    requires
        v.sites.contains_key(key),
        v.lives.contains(v.sites[key].life),
        v.sites[key].fwd.len() > 0,
        forward_given(v, w, key, life, tole, tole_life, true, ok),
    ensures
        ({
            let fwd = v.sites[key].fwd;
            let there = exists|i: int| 0 <= i < fwd.len() && (#[trigger] fwd[i]).0 == tole;
            &&& w.sites.contains_key(key)
            &&& w.sites[key].line == v.sites[key].line
            &&& w.sites[key].pend == v.sites[key].pend
            &&& ok <==> there || fwd.len() != 8
            &&& there ==> w.sites[key].fwd == fwd
            &&& !there && fwd.len() == 8 ==> w.sites[key].fwd == fwd
            &&& !there && fwd.len() != 8 ==> w.sites[key].fwd == fwd.push((tole, tole_life))
        }),
{
}

/// The first tole at a key makes a site for it if there is memory.
pub proof fn law_first_tole_makes_a_site(
    v: RoomView,
    w: RoomView,
    key: WakeKey,
    life: usize,
    tole: usize,
    tole_life: usize,
    had: bool,
    ok: bool,
)
    requires
        !v.sites.contains_key(key),
        v.lives.contains(life),
        forward_given(v, w, key, life, tole, tole_life, had, ok),
    ensures
        ok == had,
        !had ==> w == v,
        had ==> w.sites.contains_key(key) && w.sites[key].fwd == seq![(tole, tole_life)]
            && w.sites[key].life == life && w.sites[key].line.len() == 0 && !w.sites[key].pend,
{
    if had {
        assert(Seq::<(usize, usize)>::empty().push((tole, tole_life)) =~= seq![(tole, tole_life)]);
    }
}

/// A tole that is taken down hangs there no more, and the others hang as they did.
pub proof fn law_taking_down_takes_one_tole(
    v: RoomView,
    key: WakeKey,
    tole: usize,
    x: (usize, usize),
)
    requires
        v.sites.contains_key(key),
        forall|i: int, j: int|
            0 <= i < j < v.sites[key].fwd.len() ==> (#[trigger] v.sites[key].fwd[i]).0 != (
            #[trigger] v.sites[key].fwd[j]).0,
        x.0 != tole,
        v.lives.contains(v.sites[key].life),
    ensures
        ({
            let w = unforwarded(v, key, tole);
            let fwd = v.sites[key].fwd;
            &&& w.sites.contains_key(key) ==> forall|i: int|
                0 <= i < w.sites[key].fwd.len() ==> (#[trigger] w.sites[key].fwd[i]).0 != tole
            &&& fwd.contains(x) ==> w.sites.contains_key(key) && w.sites[key].fwd.contains(x)
            &&& w.sites.contains_key(key) ==> w.sites[key].line == v.sites[key].line
                && w.sites[key].pend == v.sites[key].pend
            &&& v.sites[key].line.len() > 0 || v.sites[key].pend ==> w.sites.contains_key(key)
        }),
{
    let s = v.sites[key];
    let fwd = s.fwd;
    let w = unforwarded(v, key, tole);
    if exists|i: int| 0 <= i < fwd.len() && (#[trigger] fwd[i]).0 == tole {
        let i0 = choose|i: int| 0 <= i < fwd.len() && (#[trigger] fwd[i]).0 == tole;
        assert(hangs_at(fwd, i0, tole));
        let at = choose|at: int| #[trigger] hangs_at(fwd, at, tole);
        assert(hangs_at(fwd, at, tole));
        let left = fwd.remove(at);
        assert forall|i: int| 0 <= i < left.len() implies (#[trigger] left[i]).0 != tole by {
            if i < at {
                assert(fwd[i].0 != fwd[at].0);
            } else {
                assert(left[i] == fwd[i + 1]);
                assert(fwd[at].0 != fwd[i + 1].0);
            }
        }
        if fwd.contains(x) {
            let j = choose|j: int| 0 <= j < fwd.len() && fwd[j] == x;
            if j < at {
                assert(left[j] == x);
            } else {
                assert(left[j - 1] == x);
            }
        }
    } else {
        if fwd.contains(x) {
            let j = choose|j: int| 0 <= j < fwd.len() && fwd[j] == x;
            assert(fwd[j] == x);
        }
    }
}

/// What becomes of who asks to wait: a beacon that stands there lets it go on at once and is
/// gone; who is to stop quits with the reason that was noted; nobody can wait from an empty
/// hart; without memory nothing waits; and otherwise it leaves the hart to the first of the
/// queue.
pub proof fn law_asking_to_wait(
    v: RoomView,
    w: RoomView,
    me: usize,
    key: WakeKey,
    life: usize,
    dur: Option<u64>,
    now: u64,
    space: bool,
    slot: bool,
    armed: bool,
    r: Result<Handoff<()>, GateError>,
)
    requires
        me < v.lanes.len() <= MAX_HART_SLOTS,
        v.reasons.len() == MAX_HART_SLOTS,
        block_given(v, w, me, key, life, dur, now, space, slot, armed, r),
        dur matches Some(d) ==> now + d <= u64::MAX,
    ensures
        ({
            let running = v.lanes[me as int].running;
            let lit = v.sites.contains_key(key) && v.sites[key].pend;
            let noted = running is Some && v.doomed.contains_key(running->0);
            let waits = !lit && running is Some && !noted && (v.sites.contains_key(key) || space)
                && (dur is None || (slot && armed));
            &&& (r matches Ok(Handoff::Resume(_))) == lit
            &&& lit ==> w.lanes == v.lanes && w.tasks == v.tasks && (w.sites.contains_key(key)
                ==> !w.sites[key].pend && w.sites[key].line == v.sites[key].line)
            &&& r == Err::<Handoff<()>, GateError>(GateError::Busy) <==> !lit && running is None
            &&& (r matches Ok(Handoff::Quit)) == (!lit && noted)
            &&& !lit && noted ==> w.reasons[me as int] == v.doomed[running->0]
                && !w.doomed.contains_key(running->0) && w.lanes == v.lanes
            &&& r == Err::<Handoff<()>, GateError>(GateError::OoM) <==> !lit && running is Some
                && !noted && !waits
            &&& r is Err ==> w.lanes == v.lanes && w.tasks == v.tasks && w.flying == v.flying
            &&& waits && v.lanes[me as int].queue.len() > 0 ==> r == Ok::<Handoff<()>, GateError>(
                Handoff::Switch(v.tasks[v.lanes[me as int].queue[0]].ident.frame),
            )
            &&& waits && v.lanes[me as int].queue.len() == 0 ==> r == Ok::<Handoff<()>, GateError>(
                Handoff::Idle,
            )
            &&& waits ==> w.next_ticket == v.next_ticket.wrapping_add(1)
        }),
{
}

/// A deadline is as many ticks after now as was asked for, under the ticket of the wait.
pub proof fn law_deadline_is_as_asked(
    v: RoomView,
    w: RoomView,
    me: usize,
    key: WakeKey,
    life: usize,
    dur: Option<u64>,
    now: u64,
    r: Result<Handoff<()>, GateError>,
)
    requires
        me < v.lanes.len(),
        v.lanes[me as int].running is Some,
        !v.doomed.contains_key(v.lanes[me as int].running->0),
        v.sites.contains_key(key),
        v.lives.contains(v.sites[key].life),
        !v.sites[key].pend,
        dur matches Some(d) ==> now + d <= u64::MAX,
        block_given(v, w, me, key, life, dur, now, true, true, true, r),
    ensures
        w.sites[key].line == v.sites[key].line.push(v.lanes[me as int].running->0),
        dur is None ==> w.clock == v.clock,
        dur matches Some(d) ==> w.clock.contains_key(v.next_ticket) && w.clock[v.next_ticket]
            == now + d && w.holders[v.next_ticket] == (key, v.lanes[me as int].running->0),
        forall|t: u64| t != v.next_ticket ==> #[trigger] w.clock.contains_key(t) == v.clock.contains_key(t),
{
}

/// What freeing tasks leaves of everything but their states and places.
spec fn kept_but_states(v: RoomView, w: RoomView) -> bool {
    &&& w.husks == v.husks
    &&& w.teams == v.teams
    &&& w.spaces == v.spaces
    &&& w.lives == v.lives
    &&& forall|x: usize|
        (#[trigger] w.tasks[x]).ident == v.tasks[x].ident && w.tasks[x].buried == v.tasks[x].buried
            && w.tasks[x].heirs == v.tasks[x].heirs
}

proof fn lemma_frees_keep(v: RoomView, me: usize, ids: Seq<usize>)
    ensures
        kept_but_states(v, released_all(v, me, ids)),
        released_all(v, me, ids).sites == v.sites,
        forall|x: usize|
            v.tasks.contains_key(x) ==> #[trigger] released_all(v, me, ids).tasks.contains_key(x),
    decreases ids.len(),
{
    if ids.len() > 0 {
        let u = released(v, me, ids[0]);
        let rest = ids.drop_first();
        lemma_frees_keep(u, me, rest);
        let w = released_all(v, me, ids);
        assert(w == released_all(u, me, rest));
        assert(kept_but_states(v, u));
        assert forall|x: usize|
            (#[trigger] w.tasks[x]).ident == v.tasks[x].ident && w.tasks[x].buried
                == v.tasks[x].buried && w.tasks[x].heirs == v.tasks[x].heirs by {
            assert(u.tasks[x].ident == v.tasks[x].ident);
        }
        assert forall|x: usize| v.tasks.contains_key(x) implies #[trigger] w.tasks.contains_key(x) by {
            assert(u.tasks.contains_key(x));
        }
    }
}

proof fn lemma_knocks_keep(
    v: RoomView,
    me: usize,
    fwd: Seq<(usize, usize)>,
    hads: Seq<bool>,
    key: WakeKey,
)
    requires
        !(key is Tole),
    ensures
        kept_but_states(v, knocked_all(v, me, fwd, hads)),
        knocked_all(v, me, fwd, hads).sites.contains_key(key) == v.sites.contains_key(key),
        forall|x: usize|
            v.tasks.contains_key(x) ==> #[trigger] knocked_all(v, me, fwd, hads).tasks.contains_key(
                x,
            ),
    decreases fwd.len(),
{
    if fwd.len() > 0 {
        let u = knocked(v, me, WakeKey::Tole { id: fwd[0].0 }, fwd[0].1, hads[0]);
        let rest = fwd.drop_first();
        lemma_knocks_keep(u, me, rest, hads.drop_first(), key);
        let w = knocked_all(v, me, fwd, hads);
        assert(w == knocked_all(u, me, rest, hads.drop_first()));
        assert(kept_but_states(v, u));
        assert forall|x: usize|
            (#[trigger] w.tasks[x]).ident == v.tasks[x].ident && w.tasks[x].buried
                == v.tasks[x].buried && w.tasks[x].heirs == v.tasks[x].heirs by {
            assert(u.tasks[x].ident == v.tasks[x].ident);
        }
        assert forall|x: usize| v.tasks.contains_key(x) implies #[trigger] w.tasks.contains_key(x) by {
            assert(u.tasks.contains_key(x));
        }
    }
}

proof fn lemma_sweep_keeps(v: RoomView, me: usize, keys: Seq<WakeKey>)
    ensures
        kept_but_states(v, swept(v, me, keys)),
        forall|k: WakeKey|
            !v.sites.contains_key(k) ==> !(#[trigger] swept(v, me, keys).sites.contains_key(k)),
        forall|x: usize|
            v.tasks.contains_key(x) ==> #[trigger] swept(v, me, keys).tasks.contains_key(x),
    decreases keys.len(),
{
    if keys.len() > 0 {
        let rest = keys.drop_last();
        lemma_sweep_keeps(v, me, rest);
        let u = swept(v, me, rest);
        let c = cleared(u, keys.last());
        lemma_frees_keep(c, me, u.sites[keys.last()].line);
        let w = swept(v, me, keys);
        assert forall|x: usize|
            (#[trigger] w.tasks[x]).ident == v.tasks[x].ident && w.tasks[x].buried
                == v.tasks[x].buried && w.tasks[x].heirs == v.tasks[x].heirs by {
            assert(u.tasks[x].ident == v.tasks[x].ident);
        }
        assert forall|x: usize| v.tasks.contains_key(x) implies #[trigger] w.tasks.contains_key(x) by {
            assert(u.tasks.contains_key(x));
        }
        assert forall|k: WakeKey| !v.sites.contains_key(k) implies !(
        #[trigger] w.sites.contains_key(k)) by {
            assert(!u.sites.contains_key(k));
        }
    }
}

/// Clearing away takes the first husk: it is cleared away then, its team has it on the list no
/// more but everybody else who lives, nobody joins it any more, and the others that are husks
/// stay. The last of a space takes with it what waits for the words of the space.
pub proof fn law_burial_takes_the_first_husk(
    v: RoomView,
    w: RoomView,
    me: usize,
    hads: Seq<bool>,
    keys: Seq<WakeKey>,
    other: usize,
    slot: usize,
)
    requires
        v.husks.len() > 0,
        v.tasks.contains_key(v.husks[0]),
        other != v.husks[0],
        buried_with(v, w, me, hads, keys),
    ensures
        ({
            let id = v.husks[0];
            let ident = v.tasks[id].ident;
            let t = ident.team;
            &&& w.husks == v.husks.drop_first()
            &&& w.tasks.contains_key(id) && w.tasks[id].buried
            &&& w.tasks[id].ident == ident
            &&& w.tasks[other].buried == v.tasks[other].buried
            &&& w.tasks[other].ident == v.tasks[other].ident
            &&& !w.sites.contains_key(WakeKey::Task { id })
            &&& w.teams.dom() == v.teams.dom()
            &&& v.teams.contains_key(t) ==> {
                &&& !w.teams[t].tasks.contains(id)
                &&& w.teams[t].tasks.contains(other) ==> v.teams[t].tasks.contains(other)
                &&& v.teams[t].tasks.contains(other) && v.tasks.contains_key(other)
                    && !v.tasks[other].buried ==> w.teams[t].tasks.contains(other)
                &&& w.teams[t].sire == v.teams[t].sire
                &&& w.teams[t].space == v.teams[t].space
            }
            &&& forall|u: usize| u != t ==> #[trigger] w.teams[u] == v.teams[u]
            &&& v.spaces.contains_key(ident.space) && v.spaces[ident.space] == 1
                ==> !w.sites.contains_key(WakeKey::Space { space: ident.space, slot })
            &&& w.spaces == v.spaces
        }),
{
    let id = v.husks[0];
    let ident = v.tasks[id].ident;
    let t = ident.team;
    let a = RoomView {
        husks: v.husks.drop_first(),
        tasks: v.tasks.insert(id, (TaskBody { buried: true, ..v.tasks[id] })),
        ..v
    };
    let key = WakeKey::Task { id };
    let b = wiped(a, me, key, hads);
    if a.sites.contains_key(key) {
        let c = cleared(a, key);
        lemma_knocks_keep(c, me, a.sites[key].fwd, hads, key);
        let k = knocked_all(c, me, a.sites[key].fwd, hads);
        lemma_frees_keep(k, me, a.sites[key].line);
        assert forall|x: usize|
            (#[trigger] b.tasks[x]).ident == a.tasks[x].ident && b.tasks[x].buried
                == a.tasks[x].buried && b.tasks[x].heirs == a.tasks[x].heirs by {
            assert(k.tasks[x].ident == a.tasks[x].ident);
        }
        assert(k.tasks.contains_key(id));
        assert forall|x: usize| a.tasks.contains_key(x) implies #[trigger] b.tasks.contains_key(x) by {
            assert(k.tasks.contains_key(x));
        }
    }
    assert(kept_but_states(a, b));
    assert(!b.sites.contains_key(key));
    assert(b.tasks.contains_key(id));
    let c = if sole(b, ident.space) {
        swept(b, me, keys)
    } else {
        b
    };
    let word = WakeKey::Space { space: ident.space, slot };
    if sole(b, ident.space) {
        lemma_sweep_keeps(b, me, keys);
        lemma_swept_frees(b, me, keys);
        if b.sites.contains_key(word) {
            assert(keys.contains(word));
        } else {
            assert(!c.sites.contains_key(word));
        }
        assert(!c.sites.contains_key(key));
        assert(c.tasks.contains_key(id));
    }
    assert(c.tasks[id].ident == b.tasks[id].ident);
    assert(b.tasks[id].ident == a.tasks[id].ident);
    assert(c.tasks[other].ident == b.tasks[other].ident);
    assert(b.tasks[other].ident == a.tasks[other].ident);
    assert(w == team_pruned(c, t));
    if v.teams.contains_key(t) {
        let list = v.teams[t].tasks;
        let left = w.teams[t].tasks;
        if left.contains(id) {
            lemma_living_is(c, list, id);
        }
        if left.contains(other) {
            lemma_living_is(c, list, other);
        }
        if list.contains(other) && v.tasks.contains_key(other) && !v.tasks[other].buried {
            assert(a.tasks.contains_key(other));
            assert(b.tasks.contains_key(other));
            assert(c.tasks.contains_key(other));
            lemma_living_has(c, list, other);
        }
        assert(w.teams.dom() =~= v.teams.dom());
    }
}

/// The tally counts each site by what is at it: sites at which somebody waits, sites at which
/// nobody waits with and without a beacon, sites whose life has ended, and everybody who waits.
pub proof fn law_tally_counts_each(v: RoomView, keys: Seq<WakeKey>)
    ensures
        ({
            let t = tallied(v, keys);
            let lines = keys.map_values(|k: WakeKey| v.sites[k].line.len() as int);
            &&& t.sites == keys.len()
            &&& t.live == keys.filter(|k: WakeKey| v.sites[k].line.len() > 0).len()
            &&& t.tomb == keys.filter(|k: WakeKey| v.sites[k].line.len() == 0 && v.sites[k].pend).len()
            &&& t.orphan == keys.filter(
                |k: WakeKey| v.sites[k].line.len() == 0 && !v.sites[k].pend,
            ).len()
            &&& t.dead == keys.filter(|k: WakeKey| !v.lives.contains(v.sites[k].life)).len()
            &&& t.waiters == lines.fold_left(0, |sum: int, n: int| sum + n)
            &&& t.each.len() == 7
            &&& t.each[0] == keys.filter(|k: WakeKey| k is Space).len()
            &&& t.each[1] == keys.filter(|k: WakeKey| k is Hole).len()
            &&& t.each[2] == keys.filter(|k: WakeKey| k is Nole).len()
            &&& t.each[3] == keys.filter(|k: WakeKey| k is Task).len()
            &&& t.each[4] == keys.filter(|k: WakeKey| k is Pies).len()
            &&& t.each[5] == keys.filter(|k: WakeKey| k is Tole).len()
            &&& t.each[6] == keys.filter(|k: WakeKey| k is Alarm).len()
        }),
    decreases keys.len(),
{
    reveal(Seq::filter);
    let plus = |sum: int, n: int| sum + n;
    let size = |k: WakeKey| v.sites[k].line.len() as int;
    let lines = keys.map_values(size);
    reveal_with_fuel(Seq::fold_left, 1);
    if keys.len() > 0 {
        let rest = keys.drop_last();
        law_tally_counts_each(v, rest);
        assert(lines.drop_last() =~= rest.map_values(size));
        assert(lines.fold_left(0, plus) == plus(lines.drop_last().fold_left(0, plus), lines.last()));
        assert(lines.last() == size(keys.last()));
    } else {
        assert(lines.len() == 0);
        assert(lines.fold_left(0, plus) == 0);
    }
}

/// Who waited and is let go on is told so, and who is not gets what became of it: the answer
/// says yes where the wait was over at once, and nothing of the rest is changed.
pub proof fn law_answer_says_what_became(r: Result<Handoff<()>, GateError>, ready: bool, pa: usize)
    ensures
        (r matches Ok(Handoff::Resume(_))) ==> answered(r) == Ok::<Handoff<bool>, GateError>(
            Handoff::Resume(true),
        ) && seen_again(r, ready) == Ok::<Handoff<bool>, GateError>(Handoff::Resume(ready)),
        r == Ok::<Handoff<()>, GateError>(Handoff::Switch(pa)) ==> answered(r) == Ok::<
            Handoff<bool>,
            GateError,
        >(Handoff::Switch(pa)) && seen_again(r, ready) == Ok::<Handoff<bool>, GateError>(
            Handoff::Switch(pa),
        ),
        r == Ok::<Handoff<()>, GateError>(Handoff::Idle) ==> answered(r) == Ok::<
            Handoff<bool>,
            GateError,
        >(Handoff::Idle) && seen_again(r, ready) == Ok::<Handoff<bool>, GateError>(Handoff::Idle),
        r == Ok::<Handoff<()>, GateError>(Handoff::Quit) ==> answered(r) == Ok::<
            Handoff<bool>,
            GateError,
        >(Handoff::Quit) && seen_again(r, ready) == Ok::<Handoff<bool>, GateError>(Handoff::Quit),
        r is Err ==> answered(r) == Err::<Handoff<bool>, GateError>(r->Err_0) && seen_again(r, ready)
            == Err::<Handoff<bool>, GateError>(r->Err_0),
{
}

/// Deadlines are settled 64 at a time: those that are have passed, they are the earliest of
/// those that have, and where there are fewer than 64 they are all.
pub proof fn law_earliest_are_settled_first(clock: Map<u64, u64>, now: u64, t: u64, i: int)
    requires
        passed(clock, now, due_of(clock, now)),
        clock.contains_key(t),
        clock[t] <= now,
        0 <= i < batch_of(clock, now).len(),
    ensures
        batch_of(clock, now).len() <= 64,
        clock.contains_key(batch_of(clock, now)[i]),
        clock[batch_of(clock, now)[i]] <= now,
        batch_of(clock, now).len() < 64 ==> batch_of(clock, now).contains(t),
        !batch_of(clock, now).contains(t) ==> clock[batch_of(clock, now)[i]] <= clock[t],
        i + 1 < batch_of(clock, now).len() ==> clock[batch_of(clock, now)[i]]
            <= clock[batch_of(clock, now)[i + 1]],
{
    let list = due_of(clock, now);
    let batch = batch_of(clock, now);
    assert(list.contains(t));
    let j = choose|j: int| 0 <= j < list.len() && list[j] == t;
    assert(batch[i] == list[i]);
    if j < batch.len() {
        assert(batch[j] == t);
    } else {
        assert(earlier(clock, list[i], list[j]));
    }
    if i + 1 < batch.len() {
        assert(batch[i + 1] == list[i + 1]);
        assert(earlier(clock, list[i], list[i + 1]));
    }
}

/// A hart that goes to rest is marked as waiting and one that gets up is not; no other hart's
/// mark changes, and nothing else of the room does.
pub proof fn law_mark_is_for_one_hart(v: RoomView, w: RoomView, me: usize, mark: bool, h: int)
    requires
        marked(v, w, me, mark),
        h != me,
    ensures
        w.score.waits(me as int) == mark,
        w.score.waits(h) == v.score.waits(h),
        w.tasks == v.tasks && w.lanes == v.lanes && w.sites == v.sites && w.clock == v.clock,
        w.score.pushed == v.score.pushed && w.score.reaped == v.score.reaped,
        w.score.rooted == v.score.rooted && w.score.halting == v.score.halting,
        w.score.arrived == v.score.arrived && w.score.hooks == v.score.hooks,
        w.score.kicks == v.score.kicks && w.score.fallback == v.score.fallback,
        w.outbox == v.outbox && w.flying == v.flying,
{
}

/// The machine is done when it has been set up and as many tasks have been given back as came.
pub proof fn law_done_when_all_are_back(score: Score)
    ensures
        is_done(score) ==> score.rooted,
        score.rooted && score.pushed == score.reaped ==> is_done(score),
        score.rooted && score.pushed > 0 && score.reaped != score.pushed ==> !is_done(score),
        score.rooted && score.pushed == 0 ==> is_done(score),
{
}

/// A hart that arrives at the halt is counted once, and from the first on the machine halts.
pub proof fn law_halt_counts_arrivals(s: Score)
    ensures
        halted(s).arrived == s.arrived.wrapping_add(1),
        halted(s).halting,
        halted(s).pushed == s.pushed && halted(s).reaped == s.reaped,
        halted(s).waiting == s.waiting,
        halted(s).hooks == s.hooks,
{
}

/// A test run exits with 0 if nobody panicked and something was produced, and with 101
/// otherwise; a machine that is no test run resets.
pub proof fn law_exit_status(v: Verdict)
    ensures
        v is Pass <==> v.status() == Some(0int),
        v is Void || v is Blame <==> v.status() == Some(101int),
        v is Reset <==> v.status() is None,
{
}

/// Those who are made ready together are ready, each of them, and in flight no more; nobody
/// else's state changes.
pub proof fn law_all_rise(v: RoomView, me: usize, ids: Seq<usize>, x: usize)
    ensures
        ids.contains(x) ==> risen_all(v, me, ids).tasks[x].state == TaskState::Starved
            && !risen_all(v, me, ids).flying.contains(x),
        !ids.contains(x) ==> risen_all(v, me, ids).tasks[x] == v.tasks[x] && risen_all(
            v,
            me,
            ids,
        ).flying.contains(x) == v.flying.contains(x),
        v.tasks[x].state == TaskState::Starved ==> risen_all(v, me, ids).tasks[x].state
            == TaskState::Starved,
        !v.flying.contains(x) ==> !risen_all(v, me, ids).flying.contains(x),
        risen_all(v, me, ids).sites == v.sites,
        risen_all(v, me, ids).clock == v.clock,
    decreases ids.len(),
{
    if ids.len() > 0 {
        let u = v.risen(me, ids[0]);
        let rest = ids.drop_first();
        law_all_rise(u, me, rest, x);
        assert(ids.contains(x) <==> x == ids[0] || rest.contains(x)) by {
            if ids.contains(x) {
                let i = choose|i: int| 0 <= i < ids.len() && ids[i] == x;
                if i > 0 {
                    assert(rest[i - 1] == x);
                }
            }
            if rest.contains(x) {
                let i = choose|i: int| 0 <= i < rest.len() && rest[i] == x;
                assert(ids[i + 1] == x);
            }
            assert(ids[0] == ids[0]);
        }
    }
}

/// The deadlines that pass while a hart rests make ready whom they take out, and nobody else.
pub proof fn law_rest_ends_for_the_due(v: RoomView, me: usize, due: Seq<u64>, x: usize)
    ensures
        claims(v, due).1.contains(x) ==> redeemed(v, me, due).tasks[x].state == TaskState::Starved,
        !claims(v, due).1.contains(x) ==> redeemed(v, me, due).tasks[x] == v.tasks[x],
{
    law_all_rise(claims(v, due).0, me, claims(v, due).1, x);
    law_every_due_is_taken(v, due);
}

/// The living are those that came and have not been cleared away.
pub proof fn law_survivors_are_the_living(v: RoomView, k: usize)
    ensures
        survivors(v).contains(k) <==> v.tasks.contains_key(k) && !v.tasks[k].buried,
{
}

/// Tearing the room down leaves those that run and nobody else: no queue, no line, no deadline,
/// no husk and no note.
pub proof fn law_tearing_down_leaves_who_runs(v: RoomView, h: int, k: usize)
    requires
        0 <= h < v.lanes.len(),
    ensures
        ripped(v).lanes[h].queue.len() == 0,
        ripped(v).lanes[h].running == v.lanes[h].running,
        ripped(v).sites.dom() == Set::<WakeKey>::empty(),
        ripped(v).clock.dom() == Set::<u64>::empty(),
        ripped(v).holders.dom() == Set::<u64>::empty(),
        ripped(v).husks.len() == 0,
        ripped(v).doomed.dom() == Set::<usize>::empty(),
        ripped(v).pending == 0,
        v.tasks.contains_key(k) && v.lanes[h].running == Some(k) ==> ripped(v).tasks.contains_key(k)
            && ripped(v).tasks[k] == v.tasks[k],
        ripped(v).tasks.contains_key(k) ==> exists|j: int|
            0 <= j < v.lanes.len() && (#[trigger] v.lanes[j]).running == Some(k),
{
    assert(ripped(v).sites.dom() =~= Set::<WakeKey>::empty());
    assert(ripped(v).clock.dom() =~= Set::<u64>::empty());
    assert(ripped(v).holders.dom() =~= Set::<u64>::empty());
    assert(ripped(v).doomed.dom() =~= Set::<usize>::empty());
    if v.lanes[h].running == Some(k) {
        assert(runs_on(v, h, k));
    }
    if ripped(v).tasks.contains_key(k) {
        let j = choose|j: int| runs_on(v, j, k);
        assert(v.lanes[j].running == Some(k));
    }
}

/// A launch tells a waiting hart that there is work, the one that work would go to, and nobody
/// where that one does not wait.
pub proof fn law_launch_calls_who_waits(v: RoomView, me: usize, id: usize)
    requires
        0 < v.lanes.len() <= MAX_HART_SLOTS,
        forall|h: int| #[trigger] v.score.waits(h) ==> 0 <= h < v.lanes.len(),
    ensures
        ({
            let w = launched(v, me, id);
            let p = pick_of(v.score, me, v.lanes.len() as usize) as int;
            &&& v.score.waits(p) ==> w.outbox.len() == v.outbox.len() + 1 && (forall|h: int|
                #[trigger] w.outbox.last().reaches(h) <==> h == p)
            &&& !v.score.waits(p) ==> w.outbox == v.outbox
            &&& w.score.cursor == v.score.cursor.wrapping_add(1)
            &&& w.score.pushed == v.score.pushed
        }),
{
    law_work_goes_to_who_waits(v.score, me, v.lanes.len() as usize);
    law_nudge_reaches_one(pick_of(v.score, me, v.lanes.len() as usize) as int);
}

/// The calls that wake the waiting harts reach each of them and nobody else.
pub proof fn law_calls_reach_who_waits(calls: Seq<Ipi>, score: Score, h: int)
    requires
        covers(calls, score),
    ensures
        score.waits(h) <==> exists|i: int|
            0 <= i < calls.len() && (#[trigger] calls[i]).reaches(h),
{
    assert(score.waiting.has(h) == score.waits(h));
}

/// What the count of the sites shows is what was counted, where it fits in a word.
pub proof fn law_stats_show_the_tally(s: SiteStats, t: Tally)
    requires
        s.shows(t),
        t.sites <= 0xFFFF_FFFF,
        t.waiters <= 0xFFFF_FFFF,
        t.live <= t.sites,
        t.tomb <= t.sites,
        t.orphan <= t.sites,
        t.dead <= t.sites,
    ensures
        s.sites == t.sites,
        s.live == t.live,
        s.tomb == t.tomb,
        s.orphan == t.orphan,
        s.dead == t.dead,
        s.waiters == t.waiters,
        s.each@.len() == t.each.len(),
{
}

/// A task waits in a line when its state says so and the line of that key has it.
pub proof fn law_in_line_is_in_the_line(v: RoomView, id: usize)
    ensures
        in_line(v, id) <==> v.tasks.contains_key(id) && v.tasks[id].state is Blocked
            && v.sites.contains_key(v.tasks[id].state->key)
            && v.sites[v.tasks[id].state->key].line.contains(id),
{
}

/// How many wait at some keys is how many wait at each, added up.
pub proof fn law_lines_add_up(v: RoomView, keys: Seq<WakeKey>, key: WakeKey)
    ensures
        line_total(v, Seq::<WakeKey>::empty()) == 0,
        line_total(v, keys.push(key)) == line_total(v, keys) + v.sites[key].line.len(),
{
    assert(keys.push(key).drop_last() =~= keys);
}

/// Each state has its own tag.
pub proof fn law_tags_tell_states_apart(a: TaskState)
    ensures
        a is Held <==> a.tag_spec() is Held,
        a is Starved <==> a.tag_spec() is Starved,
        a is Running <==> a.tag_spec() is Running,
        a is Blocked <==> a.tag_spec() is Blocked,
        a is Doomed <==> a.tag_spec() is Doomed,
        a is Reaped <==> a.tag_spec() is Reaped,
{
}

/// A look at the beacon sees the counts and the time as they are.
pub proof fn law_look_sees_the_counts(beacon: Beacon, room: Room, now: u64)
    ensures
        look_at(beacon, room, now).pushed == room@.score.pushed,
        look_at(beacon, room, now).reaped == room@.score.reaped,
        look_at(beacon, room, now).now == now,
{
}

/// Taking a beacon takes the beacon and nothing else: who waits there stays in line, the toles
/// that hang there stay while the site's life has not ended, and no other site changes.
pub proof fn law_beacon_is_taken_alone(v: RoomView, key: WakeKey, other: WakeKey)
    requires
        v.sites.contains_key(key),
        v.sites[key].pend,
        other != key,
    ensures
        ({
            let w = beacon_taken(v, key);
            let s = v.sites[key];
            &&& s.line.len() > 0 || (v.lives.contains(s.life) && s.fwd.len() > 0)
                ==> w.sites.contains_key(key)
            &&& s.line.len() == 0 && s.fwd.len() == 0 ==> !w.sites.contains_key(key)
            &&& w.sites.contains_key(key) ==> !w.sites[key].pend && w.sites[key].line == s.line
                && w.sites[key].fwd == s.fwd && w.sites[key].life == s.life
            &&& w.sites.contains_key(other) == v.sites.contains_key(other)
            &&& v.sites.contains_key(other) ==> w.sites[other] == v.sites[other]
            &&& w.tasks == v.tasks && w.lanes == v.lanes && w.flying == v.flying
        }),
{
}

/// Who asks to wait without a deadline where others wait joins them at the end, whatever
/// memory there is, and the hart goes to the first of its queue.
pub proof fn law_waiting_needs_no_memory_where_others_wait(
    v: RoomView,
    w: RoomView,
    me: usize,
    key: WakeKey,
    life: usize,
    now: u64,
    r: Result<Handoff<()>, GateError>,
)
    requires
        me < v.lanes.len(),
        v.lanes[me as int].running is Some,
        !v.doomed.contains_key(v.lanes[me as int].running->0),
        v.sites.contains_key(key),
        v.lives.contains(v.sites[key].life),
        !v.sites[key].pend,
        block_contract(v, w, me, key, life, None, now, r),
    ensures
        w.sites[key].line == v.sites[key].line.push(v.lanes[me as int].running->0),
        v.lanes[me as int].queue.len() == 0 ==> r == Ok::<Handoff<()>, GateError>(Handoff::Idle),
        v.lanes[me as int].queue.len() > 0 ==> r == Ok::<Handoff<()>, GateError>(
            Handoff::Switch(v.tasks[v.lanes[me as int].queue[0]].ident.frame),
        ) && w.lanes[me as int].running == Some(v.lanes[me as int].queue[0]),
{
}

/// The same of who waits at a hole or a nole.
pub proof fn law_waiting_at_a_mailbox_is_waiting(
    v: RoomView,
    w: RoomView,
    me: usize,
    key: WakeKey,
    life: usize,
    now: u64,
    ready: bool,
    a: Result<Handoff<bool>, GateError>,
)
    requires
        me < v.lanes.len(),
        v.lanes[me as int].running is Some,
        !v.doomed.contains_key(v.lanes[me as int].running->0),
        v.sites.contains_key(key),
        v.lives.contains(v.sites[key].life),
        waited(v, w, me, key, life, None, now, ready, a),
    ensures
        v.sites[key].pend ==> a == Ok::<Handoff<bool>, GateError>(Handoff::Resume(ready)) && (
        w.sites.contains_key(key) ==> !w.sites[key].pend),
        !v.sites[key].pend ==> w.sites[key].line == v.sites[key].line.push(
            v.lanes[me as int].running->0,
        ) && (a matches Ok(Handoff::Switch(_)) || a matches Ok(Handoff::Idle)),
{
}

/// A tole hangs at a key that has room for it, whatever memory there is, where others hang.
pub proof fn law_hanging_needs_no_memory_where_others_hang(
    v: RoomView,
    w: RoomView,
    key: WakeKey,
    life: usize,
    tole: usize,
    tole_life: usize,
    ok: bool,
)
    requires
        v.sites.contains_key(key),
        v.lives.contains(v.sites[key].life),
        v.sites[key].fwd.len() < 8,
        forall|i: int| 0 <= i < v.sites[key].fwd.len() ==> (#[trigger] v.sites[key].fwd[i]).0 != tole,
        forward_contract(v, w, key, life, tole, tole_life, ok),
    ensures
        ok,
        w.sites.contains_key(key),
        w.sites[key].fwd == v.sites[key].fwd.push((tole, tole_life)),
        w.sites[key].line == v.sites[key].line,
{
}

/// Each burial takes one husk, the first.
pub proof fn law_each_burial_takes_one(v: RoomView, w: RoomView, me: usize)
    requires
        v.husks.len() > 0,
        v.tasks.contains_key(v.husks[0]),
        buried_one(v, w, me),
    ensures
        w.husks == v.husks.drop_first(),
        w.tasks[v.husks[0]].buried,
        !w.sites.contains_key(WakeKey::Task { id: v.husks[0] }),
{
    let (hads, keys) = choose|hads: Seq<bool>, keys: Seq<WakeKey>| #[trigger]
        buried_with(v, w, me, hads, keys);
    let other = if v.husks[0] == 0 {
        1usize
    } else {
        0usize
    };
    law_burial_takes_the_first_husk(v, w, me, hads, keys, other, 0);
}

} // verus!
