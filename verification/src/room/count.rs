//! What is counted in a room: everybody who came, and everybody who was cleared away.
use vstd::prelude::*;
use crate::room::conductor::Score;
use crate::room::conductor::is_done;
use crate::room::messenger::doom::suspended;
use crate::room::messenger::reap::{
    buried_one, buried_with, departed, paid, reaped, sole, team_pruned,
};
use crate::room::messenger::wait::holder::{holder_of, voided};
use crate::room::messenger::wait::site::{SiteView, WakeKey};
use crate::room::messenger::wait::{
    claim, claims, cleared, first_under, gone_to_wait, knocked, knocked_all, lined_up, pruned, released,
    released_all, risen_all, sited, someone_waits, swept, ticketed, toles_at, touched,
    wiped, woken,
};
use crate::room::scheduler::fetch::taken_up;
use crate::room::scheduler::table::launched;
use crate::room::scheduler::Tock;
use crate::room::{Room, RoomView, new_body};
use crate::unit::chain::other_than;
use crate::unit::task::{TaskBody, TaskIdent, TaskState};

verus! {

/// The tasks that were cleared away.
pub open spec fn cleared_away(v: RoomView) -> Set<usize> {
    v.tasks.dom().filter(|k: usize| v.tasks[k].buried)
}

/// Whether the score is right: as many have come as the room knows, and as many have gone as
/// were cleared away, but for `owed` whose remains the host has still to give back.
pub open spec fn counted(v: RoomView, owed: nat) -> bool {
    &&& v.tasks.dom().finite()
    &&& v.score.pushed == v.tasks.dom().len()
    &&& v.score.reaped + owed == cleared_away(v).len()
}

/// Whether the same tasks are known, each is who it was, the same ones were cleared away, the
/// teams are the same, and the score says the same of it.
pub open spec fn same_people(a: RoomView, b: RoomView) -> bool {
    &&& b.tasks.dom() == a.tasks.dom()
    &&& forall|x: usize|
        a.tasks.contains_key(x) ==> (#[trigger] b.tasks[x]).buried == a.tasks[x].buried
            && b.tasks[x].ident == a.tasks[x].ident && b.tasks[x].heirs == a.tasks[x].heirs
    &&& b.teams == a.teams
    &&& b.score.pushed == a.score.pushed
    &&& b.score.reaped == a.score.reaped
}

/// Where nobody came and nobody was cleared away, the score stays right.
pub proof fn law_same_people_same_count(a: RoomView, b: RoomView, owed: nat)
    requires
        counted(a, owed),
        same_people(a, b),
    ensures
        counted(b, owed),
{
    assert(cleared_away(b) =~= cleared_away(a)) by {
        assert forall|x: usize| cleared_away(b).contains(x) <==> cleared_away(a).contains(x) by {
            if a.tasks.contains_key(x) {
                assert(b.tasks[x].buried == a.tasks[x].buried);
            }
        }
    }
}

/// The machine goes down when everybody has gone, and not before: where the score is right and
/// says that all is done, every task was cleared away and nothing of any is still to be given
/// back.
pub proof fn law_done_means_gone(v: RoomView, owed: nat)
    requires
        counted(v, owed),
        is_done(v.score),
    ensures
        owed == 0,
        forall|id: usize| #[trigger] v.tasks.contains_key(id) ==> v.tasks[id].buried,
{
    let all = v.tasks.dom();
    let gone = cleared_away(v);
    assert(gone.subset_of(all));
    vstd::set_lib::lemma_len_subset(gone, all);
    vstd::set_lib::lemma_subset_equality(gone, all);
    assert forall|id: usize| #[trigger] v.tasks.contains_key(id) implies v.tasks[id].buried by {
        assert(all.contains(id));
        assert(gone.contains(id));
    }
}

/// Who comes is counted.
pub proof fn law_coming_is_counted(v: RoomView, ident: TaskIdent, owed: nat)
    requires
        counted(v, owed),
        !v.tasks.contains_key(ident.id),
        v.tasks.dom().len() < usize::MAX,
    ensures
        counted(
            RoomView {
                tasks: v.tasks.insert(ident.id, new_body(ident)),
                score: Score { pushed: v.score.pushed.wrapping_add(1), ..v.score },
                ..v
            },
            owed,
        ),
{
    let w = RoomView {
        tasks: v.tasks.insert(ident.id, new_body(ident)),
        score: Score { pushed: v.score.pushed.wrapping_add(1), ..v.score },
        ..v
    };
    assert(w.tasks.dom() =~= v.tasks.dom().insert(ident.id));
    assert(cleared_away(w) =~= cleared_away(v));
}

/// Whether everybody who stands in a line is known.
pub open spec fn lines_known(v: RoomView) -> bool {
    forall|k: WakeKey, i: int|
        v.sites.contains_key(k) && 0 <= i < v.sites[k].line.len() ==> v.tasks.contains_key(
            #[trigger] v.sites[k].line[i],
        )
}

proof fn lemma_lines_known(room: Room)
    requires
        room.wf(),
    ensures
        lines_known(room@),
{
    assert forall|k: WakeKey, i: int|
        room@.sites.contains_key(k) && 0 <= i < room@.sites[k].line.len() implies
        room@.tasks.contains_key(#[trigger] room@.sites[k].line[i]) by {
        assert(room@.sites[k] == room.sites@[k].held());
        room.sites@[k].chain.lemma_members(room.tasks@);
    }
}

proof fn lemma_lane_known(room: Room, h: int)
    requires
        room.wf(),
        0 <= h < room@.lanes.len(),
    ensures
        room@.lanes[h].running is Some ==> room@.tasks.contains_key(room@.lanes[h].running->0),
        forall|i: int|
            0 <= i < room@.lanes[h].queue.len() ==> room@.tasks.contains_key(
                #[trigger] room@.lanes[h].queue[i],
            ),
{
    assert(room@.lanes[h] == room.lanes@[h].lane());
    room.lanes@[h].ready.lemma_members(room.tasks@);
}

/// The turns of a hart change nothing about who is there.
pub proof fn law_turns_keep_people(room: Room, h: int)
    requires
        room.wf(),
        0 <= h < room@.lanes.len(),
    ensures
        same_people(room@, room@.ticked(h)),
        room@.lanes[h].running is Some ==> same_people(room@, room@.given_way(h)),
        room@.lanes[h].running is Some ==> same_people(room@, room@.swapped_out(h)),
        room@.lanes[h].queue.len() > 0 ==> same_people(room@, taken_up(room@, h)),
{
    lemma_lane_known(room, h);
    assert(room@.ticked(h).tasks.dom() =~= room@.tasks.dom());
    assert(room@.lanes[h].running is Some ==> room@.given_way(h).tasks.dom()
        =~= room@.tasks.dom());
    assert(room@.lanes[h].running is Some ==> room@.swapped_out(h).tasks.dom()
        =~= room@.tasks.dom());
    assert(room@.lanes[h].queue.len() > 0 ==> taken_up(room@, h).tasks.dom()
        =~= room@.tasks.dom());
}

/// Who is made ready changes nothing about who is there.
pub proof fn law_launching_keeps_people(v: RoomView, me: usize, id: usize)
    ensures
        same_people(v, launched(v, me, id)),
{
}

/// A held task that is let go changes nothing about who is there.
pub proof fn law_letting_go_keeps_people(v: RoomView, me: usize, id: usize)
    requires
        v.tasks.contains_key(id),
    ensures
        same_people(
            v,
            launched(
                (RoomView { flying: v.flying.insert(id), ..v }).set_state(id, TaskState::Starved),
                me,
                id,
            ),
        ),
{
    let w = (RoomView { flying: v.flying.insert(id), ..v }).set_state(id, TaskState::Starved);
    assert(w.tasks.dom() =~= v.tasks.dom());
}

proof fn lemma_released(v: RoomView, me: usize, id: usize)
    requires
        v.tasks.contains_key(id),
    ensures
        same_people(v, released(v, me, id)),
        released(v, me, id).sites == v.sites,
        lines_known(v) ==> lines_known(released(v, me, id)),
{
    assert(released(v, me, id).tasks.dom() =~= v.tasks.dom());
}

proof fn lemma_released_all(v: RoomView, me: usize, ids: Seq<usize>)
    requires
        forall|i: int| 0 <= i < ids.len() ==> v.tasks.contains_key(#[trigger] ids[i]),
    ensures
        same_people(v, released_all(v, me, ids)),
        released_all(v, me, ids).sites == v.sites,
        lines_known(v) ==> lines_known(released_all(v, me, ids)),
    decreases ids.len(),
{
    if ids.len() > 0 {
        lemma_released(v, me, ids[0]);
        let rest = ids.drop_first();
        assert forall|i: int| 0 <= i < rest.len() implies released(v, me, ids[0]).tasks.contains_key(
            #[trigger] rest[i],
        ) by {
            assert(rest[i] == ids[i + 1]);
        }
        lemma_released_all(released(v, me, ids[0]), me, rest);
    }
}

proof fn lemma_pruned(v: RoomView, key: WakeKey)
    requires
        lines_known(v),
    ensures
        same_people(v, pruned(v, key)),
        lines_known(pruned(v, key)),
{
}

proof fn lemma_popped(v: RoomView, key: WakeKey)
    requires
        lines_known(v),
        someone_waits(v, key),
    ensures
        same_people(v, v.popped(key)),
        lines_known(v.popped(key)),
        v.tasks.contains_key(v.sites[key].line[0]),
{
    let w = v.popped(key);
    assert forall|k: WakeKey, i: int|
        w.sites.contains_key(k) && 0 <= i < w.sites[k].line.len() implies w.tasks.contains_key(
        #[trigger] w.sites[k].line[i],
    ) by {
        if k == key {
            assert(w.sites[k].line[i] == v.sites[k].line[i + 1]);
        } else {
            assert(w.sites[k] == v.sites[k]);
        }
    }
}

proof fn lemma_knocked(v: RoomView, me: usize, key: WakeKey, life: usize, had: bool)
    requires
        lines_known(v),
    ensures
        same_people(v, knocked(v, me, key, life, had)),
        lines_known(knocked(v, me, key, life, had)),
{
    if v.sites.contains_key(key) && v.sites[key].line.len() > 0 {
        lemma_popped(v, key);
        lemma_pruned(v.popped(key), key);
        lemma_released(pruned(v.popped(key), key), me, v.sites[key].line[0]);
    } else if v.sites.contains_key(key) {
        let u = v.set_site(key, SiteView { pend: true, ..v.sites[key] });
        assert(lines_known(u)) by {
            assert forall|k: WakeKey, i: int|
                u.sites.contains_key(k) && 0 <= i < u.sites[k].line.len() implies
                u.tasks.contains_key(#[trigger] u.sites[k].line[i]) by {
                assert(u.sites[k].line == v.sites[k].line);
                assert(v.tasks.contains_key(v.sites[k].line[i]));
            }
        }
        lemma_pruned(u, key);
    } else {
        let w = knocked(v, me, key, life, had);
        assert forall|k: WakeKey, i: int|
            w.sites.contains_key(k) && 0 <= i < w.sites[k].line.len() implies
            w.tasks.contains_key(#[trigger] w.sites[k].line[i]) by {
            if k != key {
                assert(w.sites[k] == v.sites[k]);
                assert(v.tasks.contains_key(v.sites[k].line[i]));
            }
        }
    }
}

proof fn lemma_knocked_all(v: RoomView, me: usize, fwd: Seq<(usize, usize)>, hads: Seq<bool>)
    requires
        lines_known(v),
    ensures
        same_people(v, knocked_all(v, me, fwd, hads)),
        lines_known(knocked_all(v, me, fwd, hads)),
    decreases fwd.len(),
{
    if fwd.len() > 0 {
        let w = knocked(v, me, WakeKey::Tole { id: fwd[0].0 }, fwd[0].1, hads[0]);
        lemma_knocked(v, me, WakeKey::Tole { id: fwd[0].0 }, fwd[0].1, hads[0]);
        lemma_knocked_all(w, me, fwd.drop_first(), hads.drop_first());
    }
}

proof fn lemma_woken(v: RoomView, me: usize, key: WakeKey, life: usize, had: bool, hads: Seq<bool>)
    requires
        lines_known(v),
    ensures
        same_people(v, woken(v, me, key, life, had, hads)),
{
    if v.alive(life) {
        let t = touched(v, key, life, had);
        if someone_waits(v, key) {
            lemma_popped(v, key);
        } else {
            assert forall|k: WakeKey, i: int|
                t.sites.contains_key(k) && 0 <= i < t.sites[k].line.len() implies
                t.tasks.contains_key(#[trigger] t.sites[k].line[i]) by {
                if v.sites.contains_key(k) {
                    assert(t.sites[k].line == v.sites[k].line);
                    assert(v.tasks.contains_key(v.sites[k].line[i]));
                }
            }
        }
        lemma_pruned(t, key);
        lemma_knocked_all(pruned(t, key), me, toles_at(v, key), hads);
        if someone_waits(v, key) {
            lemma_released(
                knocked_all(pruned(t, key), me, toles_at(v, key), hads),
                me,
                v.sites[key].line[0],
            );
        }
    }
}

/// A wake changes nothing about who is there.
pub proof fn law_waking_keeps_people(
    room: Room,
    me: usize,
    key: WakeKey,
    life: usize,
    had: bool,
    hads: Seq<bool>,
)
    requires
        room.wf(),
    ensures
        same_people(room@, woken(room@, me, key, life, had, hads)),
{
    lemma_lines_known(room);
    lemma_woken(room@, me, key, life, had, hads);
}

proof fn lemma_wiped(v: RoomView, me: usize, key: WakeKey, hads: Seq<bool>)
    requires
        lines_known(v),
    ensures
        same_people(v, wiped(v, me, key, hads)),
        lines_known(wiped(v, me, key, hads)),
{
    if v.sites.contains_key(key) {
        let c = cleared(v, key);
        let line = v.sites[key].line;
        assert forall|k: WakeKey, i: int|
            c.sites.contains_key(k) && 0 <= i < c.sites[k].line.len() implies
            c.tasks.contains_key(#[trigger] c.sites[k].line[i]) by {
            assert(c.sites[k] == v.sites[k]);
            assert(v.tasks.contains_key(v.sites[k].line[i]));
        }
        lemma_knocked_all(c, me, v.sites[key].fwd, hads);
        let k = knocked_all(c, me, v.sites[key].fwd, hads);
        assert forall|i: int| 0 <= i < line.len() implies k.tasks.contains_key(
            #[trigger] line[i],
        ) by {
            assert(v.tasks.contains_key(v.sites[key].line[i]));
        }
        lemma_released_all(k, me, line);
    }
}

/// Letting everybody at a key go changes nothing about who is there.
pub proof fn law_wiping_keeps_people(room: Room, me: usize, key: WakeKey, hads: Seq<bool>)
    requires
        room.wf(),
    ensures
        same_people(room@, wiped(room@, me, key, hads)),
{
    lemma_lines_known(room);
    lemma_wiped(room@, me, key, hads);
}

proof fn lemma_swept(v: RoomView, me: usize, keys: Seq<WakeKey>)
    requires
        lines_known(v),
        keys.no_duplicates(),
        forall|i: int| 0 <= i < keys.len() ==> v.sites.contains_key(#[trigger] keys[i]),
    ensures
        same_people(v, swept(v, me, keys)),
        lines_known(swept(v, me, keys)),
        forall|k: WakeKey|
            v.sites.contains_key(k) && !keys.contains(k) ==> #[trigger] swept(
                v,
                me,
                keys,
            ).sites.contains_key(k),
    decreases keys.len(),
{
    if keys.len() > 0 {
        let rest = keys.drop_last();
        let key = keys.last();
        assert forall|i: int| 0 <= i < rest.len() implies v.sites.contains_key(
            #[trigger] rest[i],
        ) by {
            assert(rest[i] == keys[i]);
        }
        lemma_swept(v, me, rest);
        let w = swept(v, me, rest);
        assert(v.sites.contains_key(keys[keys.len() - 1]));
        assert(!rest.contains(key)) by {
            if rest.contains(key) {
                let i = choose|i: int| 0 <= i < rest.len() && rest[i] == key;
                assert(keys[i] == key);
            }
        }
        assert(w.sites.contains_key(key));
        let c = cleared(w, key);
        let line = w.sites[key].line;
        assert forall|k: WakeKey, i: int|
            c.sites.contains_key(k) && 0 <= i < c.sites[k].line.len() implies
            c.tasks.contains_key(#[trigger] c.sites[k].line[i]) by {
            assert(c.sites[k] == w.sites[k]);
            assert(w.tasks.contains_key(w.sites[k].line[i]));
        }
        assert forall|i: int| 0 <= i < line.len() implies c.tasks.contains_key(
            #[trigger] line[i],
        ) by {
            assert(w.tasks.contains_key(w.sites[key].line[i]));
        }
        lemma_released_all(c, me, line);
        assert forall|k: WakeKey|
            v.sites.contains_key(k) && !keys.contains(k) implies #[trigger] swept(
            v,
            me,
            keys,
        ).sites.contains_key(k) by {
            assert(keys[keys.len() - 1] == key);
            assert(!rest.contains(k)) by {
                if rest.contains(k) {
                    let i = choose|i: int| 0 <= i < rest.len() && rest[i] == k;
                    assert(keys[i] == k);
                }
            }
            assert(w.sites.contains_key(k));
        }
    }
}

/// Going to wait changes nothing about who is there.
pub proof fn law_waiting_keeps_people(
    room: Room,
    me: usize,
    key: WakeKey,
    life: usize,
    tock: Option<Tock>,
)
    requires
        room.wf(),
        me < room@.lanes.len(),
        room@.lanes[me as int].running is Some,
    ensures
        same_people(room@, gone_to_wait(room@, me, key, life, tock)),
{
    let v = room@;
    let id = v.lanes[me as int].running->0;
    lemma_lane_known(room, me as int);
    let t = ticketed(sited(v, key, life), key, id, tock);
    let s = t.swapped_out(me as int);
    let w = s.set_state(id, TaskState::Blocked { key, ticket: v.next_ticket });
    assert(s.tasks.dom() =~= v.tasks.dom());
    assert(w.tasks.dom() =~= v.tasks.dom());
    assert(same_people(v, w));
    assert(lined_up(w, me, key, id).tasks.dom() =~= v.tasks.dom());
}

proof fn lemma_first_under(tasks: Map<usize, TaskBody>, line: Seq<usize>, ticket: u64)
    ensures
        first_under(tasks, line, ticket) is Some ==> line.contains(
            first_under(tasks, line, ticket)->0,
        ),
    decreases line.len(),
{
    if line.len() > 0 {
        assert(line.contains(line[0]));
        if tasks[line[0]].state->ticket != ticket {
            let rest = line.drop_first();
            lemma_first_under(tasks, rest, ticket);
            if first_under(tasks, rest, ticket) is Some {
                let x = first_under(tasks, rest, ticket)->0;
                let i = choose|i: int| 0 <= i < rest.len() && rest[i] == x;
                assert(line[i + 1] == x);
            }
        }
    }
}

proof fn lemma_claim(v: RoomView, ticket: u64)
    requires
        lines_known(v),
    ensures
        claim(v, ticket).0.tasks == v.tasks,
        claim(v, ticket).0.score == v.score,
        lines_known(claim(v, ticket).0),
        claim(v, ticket).1 is Some ==> v.tasks.contains_key(claim(v, ticket).1->0),
{
    let w = voided(v, ticket);
    if let Some((key, _)) = holder_of(v, ticket) {
        if w.sites.contains_key(key) {
            let line = w.sites[key].line;
            lemma_first_under(w.tasks, line, ticket);
            if let Some(id) = first_under(w.tasks, line, ticket) {
                let at = choose|i: int| 0 <= i < line.len() && line[i] == id;
                assert(v.tasks.contains_key(v.sites[key].line[at]));
                let p = w.plucked(key, id);
                assert forall|k: WakeKey, i: int|
                    p.sites.contains_key(k) && 0 <= i < p.sites[k].line.len() implies
                    p.tasks.contains_key(#[trigger] p.sites[k].line[i]) by {
                    if k == key {
                        line.lemma_filter_contains_rev(other_than(id), p.sites[k].line[i]);
                        let j = choose|j: int| 0 <= j < line.len() && line[j] == p.sites[k].line[i];
                        assert(v.tasks.contains_key(v.sites[key].line[j]));
                    } else {
                        assert(p.sites[k] == v.sites[k]);
                        assert(v.tasks.contains_key(v.sites[k].line[i]));
                    }
                }
                lemma_pruned(p, key);
            } else {
                lemma_pruned(w, key);
            }
        } else {
            lemma_pruned(w, key);
        }
    }
}

proof fn lemma_claims(v: RoomView, due: Seq<u64>)
    requires
        lines_known(v),
    ensures
        claims(v, due).0.tasks == v.tasks,
        claims(v, due).0.score == v.score,
        claims(v, due).0.teams == v.teams,
        lines_known(claims(v, due).0),
        forall|i: int|
            0 <= i < claims(v, due).1.len() ==> v.tasks.contains_key(
                #[trigger] claims(v, due).1[i],
            ),
    decreases due.len(),
{
    if due.len() > 0 {
        lemma_claims(v, due.drop_last());
        lemma_claim(claims(v, due.drop_last()).0, due.last());
    }
}

proof fn lemma_risen_all(v: RoomView, me: usize, ids: Seq<usize>)
    requires
        forall|i: int| 0 <= i < ids.len() ==> v.tasks.contains_key(#[trigger] ids[i]),
    ensures
        same_people(v, risen_all(v, me, ids)),
    decreases ids.len(),
{
    if ids.len() > 0 {
        let w = v.risen(me, ids[0]);
        assert(w.tasks.dom() =~= v.tasks.dom());
        let rest = ids.drop_first();
        assert forall|i: int| 0 <= i < rest.len() implies w.tasks.contains_key(
            #[trigger] rest[i],
        ) by {
            assert(rest[i] == ids[i + 1]);
        }
        lemma_risen_all(w, me, rest);
    }
}

/// A passed deadline changes nothing about who is there.
pub proof fn law_deadlines_keep_people(room: Room, me: usize, due: Seq<u64>)
    requires
        room.wf(),
    ensures
        same_people(room@, risen_all(claims(room@, due).0, me, claims(room@, due).1)),
{
    let v = room@;
    lemma_lines_known(room);
    lemma_claims(v, due);
    lemma_risen_all(claims(v, due).0, me, claims(v, due).1);
}

/// Stopping a task changes nothing about who is there, nor does its leaving the hart or
/// getting its last rites.
pub proof fn law_stopping_keeps_people(room: Room, w: RoomView, id: usize, reason: usize, done: bool)
    requires
        room.wf(),
        room@.tasks.contains_key(id),
        suspended(room@, w, id, reason, done),
    ensures
        same_people(room@, w),
{
    let v = room@;
    assert(w.tasks.dom() =~= v.tasks.dom());
}

/// A task that quits stays among those who are there, and so does one that got its last rites.
pub proof fn law_leaving_keeps_people(room: Room, me: usize, tid: usize)
    requires
        room.wf(),
        me < room@.lanes.len(),
        room@.lanes[me as int].running is Some,
        room@.tasks.contains_key(tid),
    ensures
        same_people(room@, departed(room@, me)),
        same_people(room@, reaped(room@, tid)),
{
    lemma_lane_known(room, me as int);
    assert(departed(room@, me).tasks.dom() =~= room@.tasks.dom());
    assert(reaped(room@, tid).tasks.dom() =~= room@.tasks.dom());
}

/// Clearing the first husk away marks it and changes nothing else about who is there, but for
/// what its team lists.
pub proof fn lemma_cleared_people(
    room: Room,
    w: RoomView,
    me: usize,
    hads: Seq<bool>,
    keys: Seq<WakeKey>,
)
    requires
        room.wf(),
        room@.husks.len() > 0,
        buried_with(room@, w, me, hads, keys),
    ensures
        ({
            let v = room@;
            let id = v.husks[0];
            let ident = v.tasks[id].ident;
            let a = RoomView {
                husks: v.husks.drop_first(),
                tasks: v.tasks.insert(id, (TaskBody { buried: true, ..v.tasks[id] })),
                ..v
            };
            let b = wiped(a, me, WakeKey::Task { id }, hads);
            let c = if sole(b, ident.space) {
                swept(b, me, keys)
            } else {
                b
            };
            &&& v.tasks.contains_key(id)
            &&& !v.tasks[id].buried
            &&& same_people(a, c)
            &&& w == team_pruned(c, ident.team)
        }),
{
    let v = room@;
    let id = v.husks[0];
    assert(room.husks@[0] == id);
    assert(room.homed(id));
    let a = RoomView {
        husks: v.husks.drop_first(),
        tasks: v.tasks.insert(id, (TaskBody { buried: true, ..v.tasks[id] })),
        ..v
    };
    let ident = v.tasks[id].ident;
    lemma_lines_known(room);
    assert(a.tasks.dom() =~= v.tasks.dom());
    assert(lines_known(a));
    lemma_wiped(a, me, WakeKey::Task { id }, hads);
    let b = wiped(a, me, WakeKey::Task { id }, hads);
    if sole(b, ident.space) {
        assert forall|i: int| 0 <= i < keys.len() implies b.sites.contains_key(
            #[trigger] keys[i],
        ) by {
            assert(keys.contains(keys[i]));
        }
        lemma_swept(b, me, keys);
    }
}

/// Who is cleared away is owed: it is not counted before its remains have been given back.
pub proof fn law_clearing_is_counted(room: Room, w: RoomView, me: usize, owed: nat)
    requires
        room.wf(),
        counted(room@, owed),
        room@.husks.len() > 0,
        buried_one(room@, w, me),
    ensures
        counted(w, owed + 1),
{
    let v = room@;
    let id = v.husks[0];
    let (hads, keys) = choose|hads: Seq<bool>, keys: Seq<WakeKey>| #[trigger]
        buried_with(v, w, me, hads, keys);
    lemma_cleared_people(room, w, me, hads, keys);
    let a = RoomView {
        husks: v.husks.drop_first(),
        tasks: v.tasks.insert(id, (TaskBody { buried: true, ..v.tasks[id] })),
        ..v
    };
    let ident = v.tasks[id].ident;
    let b = wiped(a, me, WakeKey::Task { id }, hads);
    let c = if sole(b, ident.space) {
        swept(b, me, keys)
    } else {
        b
    };
    assert(a.tasks.dom() =~= v.tasks.dom());
    assert(cleared_away(a) =~= cleared_away(v).insert(id));
    assert(!cleared_away(v).contains(id));
    assert(cleared_away(v).subset_of(v.tasks.dom()));
    vstd::set_lib::lemma_len_subset(cleared_away(v), v.tasks.dom());
    vstd::set_lib::lemma_len_subset(cleared_away(a), v.tasks.dom());
    assert(counted(a, owed + 1));
    law_same_people_same_count(a, c, owed + 1);
    assert(cleared_away(w) =~= cleared_away(c));
}

/// Giving the remains of one back pays one debt, and the score says so.
pub proof fn law_giving_back_is_counted(v: RoomView, owed: nat)
    requires
        counted(v, owed),
        owed > 0,
    ensures
        counted(paid(v), (owed - 1) as nat),
{
    assert(cleared_away(paid(v)) =~= cleared_away(v));
    vstd::set_lib::lemma_len_subset(cleared_away(v), v.tasks.dom());
}

} // verus!
