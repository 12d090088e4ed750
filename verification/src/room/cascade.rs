//! Who goes down with a team, and what stopping does to each.
use vstd::prelude::*;
use crate::bits::{MAX_HART_SLOTS, bit, lemma_set_bit, lemma_zero_word};
use crate::room::{CullStats, RoomView};
use crate::room::conductor::nudge_call;
use crate::room::laws::{lemma_founded_has, lemma_lineages_has, lemma_living_has};
use crate::room::messenger::doom::{
    doom_of, founded, lineage, lineages, living, members, offspring, stopped, suspended,
    suspended_all, swept_one, swept_up, undoomed,
};
use crate::room::messenger::wait::site::WakeKey;
use crate::room::scheduler::table::{hart_of, ready_on, runs_on, unqueued};
use crate::unit::chain::{lemma_without, other_than, without};
use crate::unit::task::TaskState;

verus! {

/// Those that exist among some tasks are among them, and exist.
pub proof fn lemma_living_is(v: RoomView, ids: Seq<usize>, x: usize)
    requires
        living(v, ids).contains(x),
    ensures
        ids.contains(x),
        v.tasks.contains_key(x),
        !v.tasks[x].buried,
    decreases ids.len(),
{
    if ids.len() > 0 {
        let rest = ids.drop_last();
        let l = living(v, ids);
        let i = choose|i: int| 0 <= i < l.len() && l[i] == x;
        if living(v, rest).contains(x) {
            lemma_living_is(v, rest, x);
            let j = choose|j: int| 0 <= j < rest.len() && rest[j] == x;
            assert(ids[j] == x);
        } else {
            if i < living(v, rest).len() {
                assert(living(v, rest)[i] == x);
            }
            assert(ids[ids.len() - 1] == x);
        }
    }
}

/// Whether `s` is on the list of team `t` and alive, and founded team `u`, a younger one.
pub open spec fn founds(v: RoomView, t: usize, s: usize, u: usize) -> bool {
    &&& v.teams.contains_key(t)
    &&& v.teams[t].tasks.contains(s)
    &&& v.tasks.contains_key(s)
    &&& !v.tasks[s].buried
    &&& v.tasks[s].heirs.contains(u)
    &&& t < u
}

proof fn lemma_founded_of(v: RoomView, ids: Seq<usize>, t: usize) -> (s: usize)
    requires
        founded(v, ids).contains(t),
    ensures
        ids.contains(s),
        v.tasks[s].heirs.contains(t),
    decreases ids.len(),
{
    let rest = ids.drop_last();
    let before = founded(v, rest);
    let here = v.tasks[ids.last()].heirs;
    let all = before + here;
    let i = choose|i: int| 0 <= i < all.len() && all[i] == t;
    if i < before.len() {
        assert(before[i] == t);
        let s = lemma_founded_of(v, rest, t);
        let j = choose|j: int| 0 <= j < rest.len() && rest[j] == s;
        assert(ids[j] == s);
        s
    } else {
        assert(here[i - before.len()] == t);
        assert(ids[ids.len() - 1] == ids.last());
        ids.last()
    }
}

proof fn lemma_lineages_of(v: RoomView, t: usize, teams: Seq<usize>, x: usize) -> (u: usize)
    requires
        lineages(v, t, teams).contains(x),
    ensures
        teams.contains(u),
        u > t,
        lineage(v, u).contains(x),
    decreases teams.len(),
{
    let rest = teams.drop_last();
    let tail = lineages(v, t, rest);
    if tail.contains(x) {
        let u = lemma_lineages_of(v, t, rest, x);
        let j = choose|j: int| 0 <= j < rest.len() && rest[j] == u;
        assert(teams[j] == u);
        u
    } else {
        let l = lineage(v, teams.last());
        let all = l + tail;
        let i = choose|i: int| 0 <= i < all.len() && all[i] == x;
        if i >= l.len() {
            assert(tail[i - l.len()] == x);
        }
        assert(l[i] == x);
        assert(teams[teams.len() - 1] == teams.last());
        teams.last()
    }
}

/// A team goes down with all that are on its list and alive.
pub proof fn law_team_goes_down(v: RoomView, t: usize, x: usize)
    requires
        v.teams.contains_key(t),
        v.teams[t].tasks.contains(x),
        v.tasks.contains_key(x),
        !v.tasks[x].buried,
    ensures
        lineage(v, t).contains(x),
{
    lemma_living_has(v, v.teams[t].tasks, x);
    let m = members(v, t);
    let i = choose|i: int| 0 <= i < m.len() && m[i] == x;
    assert(lineage(v, t)[i] == x);
}

/// With a team goes every team that one of its living tasks founded, and all that go down with
/// that one.
pub proof fn law_heirs_go_down(v: RoomView, t: usize, s: usize, u: usize, x: usize)
    requires
        founds(v, t, s, u),
        lineage(v, u).contains(x),
    ensures
        lineage(v, t).contains(x),
{
    lemma_living_has(v, v.teams[t].tasks, s);
    let m = members(v, t);
    lemma_founded_has(v, m, s, u);
    lemma_lineages_has(v, t, founded(v, m), u, x);
    let rest = lineages(v, t, founded(v, m));
    let j = choose|j: int| 0 <= j < rest.len() && rest[j] == x;
    assert((m + rest)[m.len() + j] == x);
}

/// Nobody else goes down with a team: who does is alive, and either on its list or goes down
/// with a team that one of its living tasks founded.
pub proof fn law_nobody_else_goes_down(v: RoomView, t: usize, x: usize)
    requires
        lineage(v, t).contains(x),
    ensures
        v.teams.contains_key(t),
        v.teams[t].tasks.contains(x) || exists|s: usize, u: usize| #[trigger]
            founds(v, t, s, u) && lineage(v, u).contains(x),
        v.tasks.contains_key(x),
        !v.tasks[x].buried,
    decreases usize::MAX - t,
{
    let m = members(v, t);
    let rest = lineages(v, t, founded(v, m));
    let all = m + rest;
    let i = choose|i: int| 0 <= i < all.len() && all[i] == x;
    if i < m.len() {
        assert(m[i] == x);
        lemma_living_is(v, v.teams[t].tasks, x);
    } else {
        assert(rest[i - m.len()] == x);
        let u = lemma_lineages_of(v, t, founded(v, m), x);
        let s = lemma_founded_of(v, m, u);
        if v.teams.contains_key(t) {
            lemma_living_is(v, v.teams[t].tasks, s);
            assert(founds(v, t, s, u));
            law_nobody_else_goes_down(v, u, x);
        }
    }
}

/// Of several roots every one is reached: those that go down are those that go down with one
/// of the roots, whichever it is, and nobody else.
pub proof fn law_every_root_goes_down(v: RoomView, roots: Seq<usize>)
    ensures
        forall|i: int, x: usize|
            0 <= i < roots.len() && #[trigger] lineage(v, roots[i]).contains(x) ==> offspring(
                v,
                roots,
            ).contains(x),
        forall|x: usize| #[trigger]
            offspring(v, roots).contains(x) ==> exists|i: int|
                0 <= i < roots.len() && #[trigger] lineage(v, roots[i]).contains(x),
    decreases roots.len(),
{
    if roots.len() > 0 {
        let rest = roots.drop_last();
        law_every_root_goes_down(v, rest);
        let l = lineage(v, roots.last());
        let o = offspring(v, rest);
        let all = offspring(v, roots);
        assert forall|i: int, x: usize|
            0 <= i < roots.len() && #[trigger] lineage(v, roots[i]).contains(x) implies all.contains(
            x,
        ) by {
            if i == roots.len() - 1 {
                let j = choose|j: int| 0 <= j < l.len() && l[j] == x;
                assert((l + o)[j] == x);
            } else {
                assert(rest[i] == roots[i]);
                assert(lineage(v, rest[i]).contains(x));
                let j = choose|j: int| 0 <= j < o.len() && o[j] == x;
                assert((l + o)[l.len() + j] == x);
            }
        }
        assert forall|x: usize| #[trigger] all.contains(x) implies exists|i: int|
            0 <= i < roots.len() && #[trigger] lineage(v, roots[i]).contains(x) by {
            let k = choose|k: int| 0 <= k < all.len() && all[k] == x;
            if k < l.len() {
                assert(l[k] == x);
                assert(lineage(v, roots[roots.len() - 1]).contains(x));
            } else {
                assert(o[k - l.len()] == x);
                assert(offspring(v, rest).contains(x));
                let i = choose|i: int|
                    0 <= i < rest.len() && #[trigger] lineage(v, rest[i]).contains(x);
                assert(roots[i] == rest[i]);
                assert(lineage(v, roots[i]).contains(x));
            }
        }
    }
}

/// Leaving a value out of a sequence leaves it out and nothing else.
pub proof fn law_without_is_all_others(s: Seq<usize>, id: usize, x: usize)
    ensures
        without(s, id).contains(x) <==> s.contains(x) && x != id,
{
    broadcast use vstd::seq_lib::group_filter_ensures;

    let t = without(s, id);
    if t.contains(x) {
        let i = choose|i: int| 0 <= i < t.len() && t[i] == x;
        s.lemma_filter_contains_rev(other_than(id), x);
        s.lemma_filter_pred(other_than(id), i);
    }
    if s.contains(x) && x != id {
        let i = choose|i: int| 0 <= i < s.len() && s[i] == x;
        s.lemma_filter_contains(other_than(id), i);
    }
}

/// A call to nudge a hart reaches this hart and no other.
pub proof fn law_nudge_reaches_one(hart: int)
    requires
        0 <= hart < MAX_HART_SLOTS,
    ensures
        forall|h: int| #[trigger] nudge_call(hart).reaches(h) <==> h == hart,
{
    let call = nudge_call(hart);
    let b: u64 = (hart % 64) as u64;
    lemma_set_bit(0, b as int);
    lemma_zero_word(0);
    assert(0u64 | (1u64 << b) == 1u64 << b) by (bit_vector);
    assert forall|h: int| #[trigger] call.reaches(h) <==> h == hart by {
        if call.base <= h < call.base + 64 {
            assert(bit(0u64 | (1u64 << b), h - call.base) <==> h - call.base == b);
        }
    }
}

/// Whether `id` is ready in the queue of some hart.
pub open spec fn queued(v: RoomView, id: usize) -> bool {
    exists|h: int| 0 <= h < v.lanes.len() && (#[trigger] v.lanes[h]).queue.contains(id)
}

/// Whether `id` stands in the line that its state names.
pub open spec fn lined(v: RoomView, id: usize) -> bool {
    &&& v.tasks[id].state is Blocked
    &&& v.sites.contains_key(v.tasks[id].state->key)
    &&& v.sites[v.tasks[id].state->key].line.contains(id)
}

/// Whether `id` can be stopped on the spot: it is held, ready or waiting.
pub open spec fn idle(v: RoomView, id: usize) -> bool {
    ||| v.tasks[id].state is Held
    ||| v.tasks[id].state is Starved && queued(v, id)
    ||| lined(v, id)
}

proof fn lemma_queued(v: RoomView, id: usize)
    ensures
        queued(v, id) <==> exists|h: int| ready_on(v, h, id),
{
    if queued(v, id) {
        let h = choose|h: int| 0 <= h < v.lanes.len() && (#[trigger] v.lanes[h]).queue.contains(id);
        assert(ready_on(v, h, id));
    }
    if exists|h: int| ready_on(v, h, id) {
        let h = choose|h: int| ready_on(v, h, id);
        assert(v.lanes[h].queue.contains(id));
    }
}

/// Who is held, ready or waiting is stopped on the spot, for whatever reason: it is doomed and
/// in flight, and no note is left. Nobody else is stopped.
pub proof fn law_idle_is_stopped(v: RoomView, w: RoomView, id: usize, reason: usize, done: bool)
    requires
        v.tasks.contains_key(id),
        suspended(v, w, id, reason, done),
    ensures
        done <==> idle(v, id),
        done ==> {
            &&& w.tasks[id].state == TaskState::Doomed
            &&& w.tasks[id].ident == v.tasks[id].ident
            &&& w.tasks[id].heirs == v.tasks[id].heirs
            &&& w.tasks[id].buried == v.tasks[id].buried
            &&& w.flying == v.flying.insert(id)
            &&& w.doomed == v.doomed
            &&& w.pending == v.pending
            &&& w.outbox == v.outbox
        },
        w.tasks.dom() == v.tasks.dom(),
        forall|x: usize| x != id ==> w.tasks[x] == v.tasks[x],
        w.teams == v.teams,
        w.spaces == v.spaces,
        w.lives == v.lives,
        w.husks == v.husks,
        w.score == v.score,
        w.reasons == v.reasons,
        w.next_ticket == v.next_ticket,
{
    lemma_queued(v, id);
    assert(w.tasks.dom() =~= v.tasks.dom());
}

/// Who is stopped leaves the place where it was, and all others stay where they are: a ready
/// task is in the queue no more, a waiting one not in the line, and its deadline is off.
pub proof fn law_stopped_leaves_its_place(
    v: RoomView,
    w: RoomView,
    id: usize,
    reason: usize,
    done: bool,
    x: usize,
)
    requires
        v.tasks.contains_key(id),
        suspended(v, w, id, reason, done),
        x != id,
    ensures
        v.tasks[id].state is Starved && done ==> {
            &&& w.sites == v.sites
            &&& w.holders == v.holders
            &&& w.clock == v.clock
            &&& exists|h: int|
                {
                    &&& 0 <= h < v.lanes.len()
                    &&& (#[trigger] v.lanes[h]).queue.contains(id)
                    &&& !w.lanes[h].queue.contains(id)
                    &&& v.lanes[h].queue.contains(x) == w.lanes[h].queue.contains(x)
                    &&& v.lanes[h].running == w.lanes[h].running
                    &&& v.lanes[h].badge == w.lanes[h].badge
                    &&& forall|j: int|
                        0 <= j < v.lanes.len() && j != h ==> #[trigger] w.lanes[j] == v.lanes[j]
                }
        },
        lined(v, id) ==> {
            let key = v.tasks[id].state->key;
            &&& w.lanes == v.lanes
            &&& w.holders == v.holders.remove(v.tasks[id].state->ticket)
            &&& w.clock == v.clock.remove(v.tasks[id].state->ticket)
            &&& w.sites.contains_key(key) ==> !w.sites[key].line.contains(id) && w.sites[key].pend
                == v.sites[key].pend && w.sites[key].fwd == v.sites[key].fwd && w.sites[key].life
                == v.sites[key].life
            &&& v.sites[key].line.contains(x) ==> w.sites.contains_key(key)
                && w.sites[key].line.contains(x)
            &&& v.sites[key].line == seq![id] && !v.sites[key].pend && v.sites[key].fwd.len() == 0
                ==> !w.sites.contains_key(key)
            &&& w.sites.contains_key(key) && w.sites[key].line.contains(x)
                ==> v.sites[key].line.contains(x)
            &&& forall|k: WakeKey| #![auto]
                k != key ==> w.sites.contains_key(k) == v.sites.contains_key(k) && (
                v.sites.contains_key(k) ==> w.sites[k] == v.sites[k])
        },
        !(v.tasks[id].state is Starved && done) && !lined(v, id) ==> w.lanes == v.lanes && w.sites
            == v.sites && w.holders == v.holders && w.clock == v.clock,
        w.lanes.len() == v.lanes.len(),
{
    lemma_queued(v, id);
    if v.tasks[id].state is Starved && done {
        let c = v.culled;
        let h = choose|h: int| #[trigger]
            ready_on(v, h, id) && w == stopped(
                unqueued(v, h, id),
                id,
                CullStats { starved: c.starved.wrapping_add(1), ..c },
            );
        law_without_is_all_others(v.lanes[h].queue, id, id);
        law_without_is_all_others(v.lanes[h].queue, id, x);
        assert(v.lanes[h].queue.contains(id));
    }
    if lined(v, id) {
        let key = v.tasks[id].state->key;
        law_without_is_all_others(v.sites[key].line, id, id);
        law_without_is_all_others(v.sites[key].line, id, x);
        if v.sites[key].line == seq![id] {
            lemma_without(seq![id], id, 0);
            assert(seq![id].remove(0) =~= Seq::<usize>::empty());
        }
    }
}

/// Who runs is not stopped from outside: it keeps its hart, gets a note with the reason if
/// there is memory for one, and the hart on which it runs is interrupted, no other. Who has
/// been stopped before is left alone.
pub proof fn law_busy_is_noted(v: RoomView, w: RoomView, id: usize, reason: usize, done: bool)
    requires
        v.tasks.contains_key(id),
        suspended(v, w, id, reason, done),
        !idle(v, id),
    ensures
        w.tasks == v.tasks,
        w.lanes == v.lanes,
        w.sites == v.sites,
        w.flying == v.flying,
        w.holders == v.holders,
        w.clock == v.clock,
        v.tasks[id].state is Reaped || v.tasks[id].state is Doomed ==> w == v,
        !(v.tasks[id].state is Reaped || v.tasks[id].state is Doomed) ==> {
            &&& w.doomed == v.doomed || w.doomed == v.doomed.insert(id, reason)
            &&& w.doomed == v.doomed ==> w.pending == v.pending || v.doomed.contains_key(id)
            &&& w.pending == v.pending + (if w.doomed.contains_key(id) && !v.doomed.contains_key(
                id,
            ) {
                1int
            } else {
                0int
            }) || v.pending == usize::MAX
            &&& w.culled.nudged == v.culled.nudged.wrapping_add(1)
            &&& (forall|h: int| 0 <= h < v.lanes.len() ==> (#[trigger] v.lanes[h]).running != Some(id))
                ==> w.outbox == v.outbox
        },
{
    lemma_queued(v, id);
    if forall|h: int| 0 <= h < v.lanes.len() ==> (#[trigger] v.lanes[h]).running != Some(id) {
        assert(hart_of(v, id) is None) by {
            if exists|h: int| runs_on(v, h, id) {
                let h = choose|h: int| runs_on(v, h, id);
                assert(v.lanes[h].running == Some(id));
            }
        }
    }
}

/// The note about a task that runs goes with an interrupt to the very hart on which it runs.
pub proof fn law_note_reaches_its_hart(
    v: RoomView,
    w: RoomView,
    id: usize,
    reason: usize,
    done: bool,
    hart: int,
)
    requires
        v.tasks.contains_key(id),
        v.tasks[id].state is Running,
        suspended(v, w, id, reason, done),
        0 <= hart < v.lanes.len() <= MAX_HART_SLOTS,
        v.lanes[hart].running == Some(id),
        forall|h: int|
            0 <= h < v.lanes.len() && (#[trigger] v.lanes[h]).running == Some(id) ==> h == hart,
    ensures
        w.outbox.len() == v.outbox.len() + 1,
        w.outbox.drop_last() == v.outbox,
        forall|h: int| #[trigger] w.outbox.last().reaches(h) <==> h == hart,
{
    assert(runs_on(v, hart, id));
    assert forall|h: int| #[trigger] runs_on(v, h, id) implies h == hart by {
        assert(v.lanes[h].running == Some(id));
    }
    assert(hart_of(v, id) == Some(hart as usize));
    law_nudge_reaches_one(hart);
    assert(w.outbox.drop_last() =~= v.outbox);
}

proof fn lemma_others_stay_idle(
    v: RoomView,
    w: RoomView,
    id: usize,
    reason: usize,
    done: bool,
    x: usize,
)
    requires
        v.tasks.contains_key(id),
        suspended(v, w, id, reason, done),
        x != id,
    ensures
        w.tasks[x] == v.tasks[x],
        idle(w, x) == idle(v, x),
{
    law_idle_is_stopped(v, w, id, reason, done);
    law_stopped_leaves_its_place(v, w, id, reason, done, x);
    lemma_queued(v, x);
    lemma_queued(w, x);
    if v.tasks[id].state is Starved && done {
        let c = v.culled;
        let h = choose|h: int| #[trigger]
            ready_on(v, h, id) && w == stopped(
                unqueued(v, h, id),
                id,
                CullStats { starved: c.starved.wrapping_add(1), ..c },
            );
        law_without_is_all_others(v.lanes[h].queue, id, x);
        assert forall|j: int| #[trigger] ready_on(w, j, x) == ready_on(v, j, x) by {
            if j != h && 0 <= j < v.lanes.len() {
                assert(w.lanes[j] == v.lanes[j]);
            }
        }
    } else {
        assert(w.lanes == v.lanes);
        assert forall|j: int| #[trigger] ready_on(w, j, x) == ready_on(v, j, x) by {}
    }
    assert(queued(w, x) == queued(v, x)) by {
        if exists|h: int| ready_on(v, h, x) {
            let h = choose|h: int| ready_on(v, h, x);
            assert(ready_on(w, h, x));
        }
        if exists|h: int| ready_on(w, h, x) {
            let h = choose|h: int| ready_on(w, h, x);
            assert(ready_on(v, h, x));
        }
    }
    assert(lined(w, x) == lined(v, x)) by {
        if v.tasks[x].state is Blocked {
            let k = v.tasks[x].state->key;
            if lined(v, id) && k != v.tasks[id].state->key {
                assert(w.sites.contains_key(k) == v.sites.contains_key(k));
            }
        }
    }
}

/// Whoever goes down is stopped or has been: of those that a cull reaches each that was held,
/// ready or waiting is doomed, in flight and among the victims afterwards, each that had been
/// stopped or that runs is as it was and no victim, and whom the cull does not reach is
/// untouched.
pub proof fn law_cull_stops_all(
    v: RoomView,
    w: RoomView,
    ids: Seq<usize>,
    reason: usize,
    victims: Seq<usize>,
)
    requires
        suspended_all(v, w, ids, reason, victims),
        forall|i: int| 0 <= i < ids.len() ==> v.tasks.contains_key(#[trigger] ids[i]),
    ensures
        forall|x: usize| #[trigger]
            victims.contains(x) <==> ids.contains(x) && idle(v, x),
        forall|x: usize| #[trigger]
            ids.contains(x) && idle(v, x) ==> w.tasks[x].state == TaskState::Doomed
                && w.flying.contains(x),
        forall|x: usize| !(ids.contains(x) && idle(v, x)) ==> #[trigger] w.tasks[x] == v.tasks[x],
        forall|x: usize| !ids.contains(x) ==> #[trigger] idle(w, x) == idle(v, x),
        w.tasks.dom() == v.tasks.dom(),
        w.teams == v.teams,
        w.spaces == v.spaces,
        w.lives == v.lives,
        w.husks == v.husks,
        w.score == v.score,
        w.reasons == v.reasons,
    decreases ids.len(),
{
    if ids.len() > 0 {
        let rest = ids.drop_last();
        let id = ids.last();
        let (u, done) = choose|u: RoomView, done: bool| #[trigger]
            suspended(u, w, id, reason, done) && suspended_all(
                v,
                u,
                rest,
                reason,
                if done {
                    victims.drop_last()
                } else {
                    victims
                },
            ) && (done ==> victims.len() > 0 && victims.last() == id);
        let before = if done {
            victims.drop_last()
        } else {
            victims
        };
        assert(forall|i: int| 0 <= i < rest.len() ==> rest[i] == ids[i]);
        law_cull_stops_all(v, u, rest, reason, before);
        assert(v.tasks.contains_key(ids[ids.len() - 1]));
        law_idle_is_stopped(u, w, id, reason, done);
        assert forall|x: usize| #[trigger] ids.contains(x) <==> rest.contains(x) || x == id by {
            if ids.contains(x) {
                let i = choose|i: int| 0 <= i < ids.len() && ids[i] == x;
                if i < rest.len() {
                    assert(rest[i] == x);
                }
            }
            if rest.contains(x) {
                let i = choose|i: int| 0 <= i < rest.len() && rest[i] == x;
                assert(ids[i] == x);
            }
            assert(ids[ids.len() - 1] == id);
        }
        assert forall|x: usize| #[trigger]
            victims.contains(x) <==> before.contains(x) || (done && x == id) by {
            if victims.contains(x) {
                let i = choose|i: int| 0 <= i < victims.len() && victims[i] == x;
                if i < before.len() {
                    assert(before[i] == x);
                }
            }
            if before.contains(x) {
                let i = choose|i: int| 0 <= i < before.len() && before[i] == x;
                assert(victims[i] == x);
            }
            if done {
                assert(victims[victims.len() - 1] == id);
            }
        }
        assert(idle(u, id) <==> !rest.contains(id) && idle(v, id)) by {
            if rest.contains(id) {
                if !idle(v, id) {
                    lemma_stays_busy(v, u, rest, reason, before, id);
                }
            } else {
                assert(idle(u, id) == idle(v, id));
            }
        }
        if !done {
            law_busy_is_noted(u, w, id, reason, done);
        }
        assert forall|x: usize| #[trigger] victims.contains(x) <==> ids.contains(x) && idle(v, x) by {
            assert(before.contains(x) <==> rest.contains(x) && idle(v, x));
        }
        assert forall|x: usize| #[trigger] ids.contains(x) && idle(v, x) implies w.tasks[x].state
            == TaskState::Doomed && w.flying.contains(x) by {
            if x != id {
                assert(rest.contains(x));
            } else if rest.contains(x) {
                assert(rest.contains(x) && idle(v, x));
            }
        }
        assert forall|x: usize| !(ids.contains(x) && idle(v, x)) implies #[trigger] w.tasks[x]
            == v.tasks[x] by {
            assert(u.tasks[x] == v.tasks[x]);
        }
        assert forall|x: usize| !ids.contains(x) implies #[trigger] idle(w, x) == idle(v, x) by {
            lemma_others_stay_idle(u, w, id, reason, done, x);
            assert(idle(u, x) == idle(v, x));
        }
    }
}

proof fn lemma_stays_busy(
    v: RoomView,
    w: RoomView,
    ids: Seq<usize>,
    reason: usize,
    victims: Seq<usize>,
    x: usize,
)
    requires
        suspended_all(v, w, ids, reason, victims),
        forall|i: int| 0 <= i < ids.len() ==> v.tasks.contains_key(#[trigger] ids[i]),
        w.tasks.dom() == v.tasks.dom(),
        !idle(v, x),
    ensures
        !idle(w, x),
    decreases ids.len(),
{
    if ids.len() > 0 {
        let rest = ids.drop_last();
        let id = ids.last();
        let (u, done) = choose|u: RoomView, done: bool| #[trigger]
            suspended(u, w, id, reason, done) && suspended_all(
                v,
                u,
                rest,
                reason,
                if done {
                    victims.drop_last()
                } else {
                    victims
                },
            ) && (done ==> victims.len() > 0 && victims.last() == id);
        let before = if done {
            victims.drop_last()
        } else {
            victims
        };
        assert(forall|i: int| 0 <= i < rest.len() ==> rest[i] == ids[i]);
        assert(v.tasks.contains_key(ids[ids.len() - 1]));
        lemma_same_dom(v, u, rest, reason, before);
        lemma_stays_busy(v, u, rest, reason, before, x);
        law_idle_is_stopped(u, w, id, reason, done);
        if x == id {
            law_busy_is_noted(u, w, id, reason, done);
        } else {
            lemma_others_stay_idle(u, w, id, reason, done, x);
        }
    }
}

proof fn lemma_same_dom(
    v: RoomView,
    w: RoomView,
    ids: Seq<usize>,
    reason: usize,
    victims: Seq<usize>,
)
    requires
        suspended_all(v, w, ids, reason, victims),
        forall|i: int| 0 <= i < ids.len() ==> v.tasks.contains_key(#[trigger] ids[i]),
    ensures
        w.tasks.dom() == v.tasks.dom(),
    decreases ids.len(),
{
    if ids.len() > 0 {
        let rest = ids.drop_last();
        let id = ids.last();
        let (u, done) = choose|u: RoomView, done: bool| #[trigger]
            suspended(u, w, id, reason, done) && suspended_all(
                v,
                u,
                rest,
                reason,
                if done {
                    victims.drop_last()
                } else {
                    victims
                },
            ) && (done ==> victims.len() > 0 && victims.last() == id);
        let before = if done {
            victims.drop_last()
        } else {
            victims
        };
        assert(forall|i: int| 0 <= i < rest.len() ==> rest[i] == ids[i]);
        assert(v.tasks.contains_key(ids[ids.len() - 1]));
        lemma_same_dom(v, u, rest, reason, before);
        law_idle_is_stopped(u, w, id, reason, done);
    }
}

/// A note is taken once, with the reason that it was left with, and the notes of all others
/// stay.
pub proof fn law_note_is_taken_once(v: RoomView, w: RoomView, id: usize, reason: usize)
    requires
        w.doomed == v.doomed.insert(id, reason),
        w.pending >= 1,
    ensures
        doom_of(w, id) == Some(reason),
        doom_of(undoomed(w, id), id) is None,
        undoomed(w, id).pending == w.pending - 1,
        undoomed(undoomed(w, id), id) == undoomed(w, id),
        forall|x: usize| x != id ==> #[trigger] doom_of(undoomed(w, id), x) == doom_of(v, x),
{
}

/// Each stop is counted once, by the way in which the task was found.
pub proof fn law_stops_are_counted(v: RoomView, w: RoomView, id: usize, reason: usize, done: bool)
    requires
        v.tasks.contains_key(id),
        suspended(v, w, id, reason, done),
    ensures
        w.culled.held == (if v.tasks[id].state is Held {
            v.culled.held.wrapping_add(1)
        } else {
            v.culled.held
        }),
        w.culled.starved == (if v.tasks[id].state is Starved && queued(v, id) {
            v.culled.starved.wrapping_add(1)
        } else {
            v.culled.starved
        }),
        w.culled.blocked == (if lined(v, id) {
            v.culled.blocked.wrapping_add(1)
        } else {
            v.culled.blocked
        }),
        w.culled.nudged == (if idle(v, id) || v.tasks[id].state is Reaped || v.tasks[id].state is Doomed {
            v.culled.nudged
        } else {
            v.culled.nudged.wrapping_add(1)
        }),
{
    lemma_queued(v, id);
}

/// Whether nothing is left of `id` that could be stopped.
pub open spec fn past(v: RoomView, id: usize) -> bool {
    !v.tasks.contains_key(id) || v.tasks[id].buried || v.tasks[id].state is Reaped
}

/// Whether a note about `x` is among those of `batch`.
pub open spec fn noted_in(batch: Seq<(usize, usize)>, x: usize) -> bool {
    exists|i: int| 0 <= i < batch.len() && (#[trigger] batch[i]).0 == x
}

/// A sweep settles each note that it takes up: whoever is past needs none and has none
/// afterwards; who can be stopped is, and is a victim; of all others the note stays as it was.
/// Whom no swept note is about is untouched.
pub proof fn law_sweep_settles_notes(
    v: RoomView,
    w: RoomView,
    batch: Seq<(usize, usize)>,
    victims: Seq<usize>,
)
    requires
        swept_up(v, w, batch, victims),
        forall|i: int|
            0 <= i < batch.len() ==> v.doomed.contains_key((#[trigger] batch[i]).0)
                && v.doomed[batch[i].0] == batch[i].1,
        forall|i: int, j: int|
            0 <= i < j < batch.len() ==> (#[trigger] batch[i]).0 != (#[trigger] batch[j]).0,
    ensures
        forall|x: usize|
            noted_in(batch, x) ==> #[trigger] w.doomed.contains_key(x) == (!past(v, x) && !idle(v, x)),
        forall|x: usize|
            !noted_in(batch, x) ==> #[trigger] w.doomed.contains_key(x) == v.doomed.contains_key(x),
        forall|x: usize| #[trigger]
            w.doomed.contains_key(x) ==> v.doomed.contains_key(x) && w.doomed[x] == v.doomed[x],
        forall|x: usize| #[trigger]
            victims.contains(x) <==> noted_in(batch, x) && !past(v, x) && idle(v, x),
        forall|x: usize| #[trigger]
            victims.contains(x) ==> w.tasks[x].state == TaskState::Doomed && w.flying.contains(x),
        forall|x: usize| !victims.contains(x) ==> #[trigger] w.tasks[x] == v.tasks[x],
        forall|x: usize| !noted_in(batch, x) ==> #[trigger] idle(w, x) == idle(v, x),
        w.tasks.dom() == v.tasks.dom(),
    decreases batch.len(),
{
    if batch.len() > 0 {
        let rest = batch.drop_last();
        let n = batch.last();
        let id = n.0;
        let (u, y, done) = choose|u: RoomView, y: RoomView, done: bool| #[trigger]
            swept_one(u, y, w, n, done) && swept_up(
                v,
                u,
                rest,
                if done {
                    victims.drop_last()
                } else {
                    victims
                },
            ) && (done ==> victims.len() > 0 && victims.last() == id);
        let before = if done {
            victims.drop_last()
        } else {
            victims
        };
        assert(forall|i: int| 0 <= i < rest.len() ==> rest[i] == batch[i]);
        assert(batch[batch.len() - 1] == n);
        law_sweep_settles_notes(v, u, rest, before);
        assert forall|x: usize| #[trigger] noted_in(batch, x) <==> noted_in(rest, x) || x == id by {
            if noted_in(batch, x) {
                let i = choose|i: int| 0 <= i < batch.len() && (#[trigger] batch[i]).0 == x;
                if i < rest.len() {
                    assert(rest[i].0 == x);
                }
            }
            if noted_in(rest, x) {
                let i = choose|i: int| 0 <= i < rest.len() && (#[trigger] rest[i]).0 == x;
                assert(batch[i].0 == x);
            }
        }
        assert(!noted_in(rest, id)) by {
            if noted_in(rest, id) {
                let i = choose|i: int| 0 <= i < rest.len() && (#[trigger] rest[i]).0 == id;
                assert(batch[i].0 != batch[batch.len() - 1].0);
            }
        }
        assert(idle(u, id) == idle(v, id));
        assert(u.doomed.contains_key(id) == v.doomed.contains_key(id));
        assert(!before.contains(id));
        assert(u.tasks[id] == v.tasks[id]);
        assert forall|x: usize| #[trigger]
            victims.contains(x) <==> before.contains(x) || (done && x == id) by {
            if victims.contains(x) {
                let i = choose|i: int| 0 <= i < victims.len() && victims[i] == x;
                if i < before.len() {
                    assert(before[i] == x);
                }
            }
            if before.contains(x) {
                let i = choose|i: int| 0 <= i < before.len() && before[i] == x;
                assert(victims[i] == x);
            }
            if done {
                assert(victims[victims.len() - 1] == id);
            }
        }
        if !past(u, id) {
            law_idle_is_stopped(u, y, id, n.1, done);
            if !done {
                law_busy_is_noted(u, y, id, n.1, done);
            }
            assert forall|x: usize| x != id implies #[trigger] idle(w, x) == idle(u, x) by {
                lemma_others_stay_idle(u, y, id, n.1, done, x);
                lemma_same_idle(y, w, x);
            }
        } else {
            assert forall|x: usize| x != id implies #[trigger] idle(w, x) == idle(u, x) by {
                lemma_same_idle(u, w, x);
            }
        }
        assert forall|x: usize| !victims.contains(x) implies #[trigger] w.tasks[x] == v.tasks[x] by {
            assert(u.tasks[x] == v.tasks[x]);
        }
        assert forall|x: usize| #[trigger] victims.contains(x) implies w.tasks[x].state
            == TaskState::Doomed && w.flying.contains(x) by {
            if x != id {
                assert(before.contains(x));
            }
        }
    }
}

proof fn lemma_same_idle(v: RoomView, w: RoomView, x: usize)
    requires
        w.tasks == v.tasks,
        w.lanes == v.lanes,
        w.sites == v.sites,
    ensures
        idle(w, x) == idle(v, x),
{
    lemma_queued(v, x);
    lemma_queued(w, x);
    assert(forall|h: int| ready_on(w, h, x) == ready_on(v, h, x));
}

proof fn lemma_living_in_order(v: RoomView, ids: Seq<usize>)
    ensures
        living(v, ids) == ids.filter(|x: usize| v.tasks.contains_key(x) && !v.tasks[x].buried),
    decreases ids.len(),
{
    reveal(Seq::filter);
    let p = |x: usize| v.tasks.contains_key(x) && !v.tasks[x].buried;
    if ids.len() > 0 {
        lemma_living_in_order(v, ids.drop_last());
    }
    assert(living(v, ids) =~= ids.filter(p));
}

/// A team goes down before the teams below it: first those on its list that are alive, in the
/// order of the list. Of several roots the last goes down first.
pub proof fn law_order_of_going_down(v: RoomView, t: usize, roots: Seq<usize>)
    requires
        v.teams.contains_key(t),
    ensures
        v.teams[t].tasks.filter(
            |x: usize| v.tasks.contains_key(x) && !v.tasks[x].buried,
        ).is_prefix_of(lineage(v, t)),
        offspring(v, roots.push(t)) == lineage(v, t) + offspring(v, roots),
        offspring(v, Seq::<usize>::empty()).len() == 0,
{
    lemma_living_in_order(v, v.teams[t].tasks);
    let m = members(v, t);
    let rest = lineages(v, t, founded(v, m));
    assert((m + rest).take(m.len() as int) =~= m);
    assert(m =~= lineage(v, t).subrange(0, m.len() as int));
    assert(roots.push(t).drop_last() =~= roots);
}

} // verus!
