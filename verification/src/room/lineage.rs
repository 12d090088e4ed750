//! Who founded whom, and that it stays so.
//!
//! A team lists its own tasks, and a task keeps a list of the teams that it has founded.
//! [`bloodline`] says that the two agree and that numbers grow from a team to those below it.
//! It holds of a room in which nothing has happened, and everything that happens keeps it, so
//! what is asked of a room before tasks are stopped along the lineage is always so.
use vstd::prelude::*;
use crate::room::boot::{founded_by, signed_up};
use crate::room::count::{same_people, lemma_cleared_people};
use crate::room::laws::{kin, lemma_living_has};
use crate::room::messenger::doom::{exists_now, lineage_ok, living};
use crate::room::messenger::reap::{buried_one, buried_with, sole, team_pruned};
use crate::room::messenger::wait::site::WakeKey;
use crate::room::messenger::wait::{swept, wiped};
use crate::room::scheduler::table::ripped;
use crate::room::{Room, RoomView, new_body};
use crate::unit::task::{TaskBody, TaskIdent};

verus! {

/// Whether every team lists only tasks of its own.
pub open spec fn lists_its_own(v: RoomView) -> bool {
    forall|t: usize, i: int|
        v.teams.contains_key(t) && 0 <= i < v.teams[t].tasks.len() ==> v.tasks.contains_key(
            #[trigger] v.teams[t].tasks[i],
        ) && v.tasks[v.teams[t].tasks[i]].ident.team == t
}

/// Whether every team that a task has founded has a higher number than the task's own.
pub open spec fn heirs_are_younger(v: RoomView) -> bool {
    forall|id: usize, j: int|
        v.tasks.contains_key(id) && 0 <= j < v.tasks[id].heirs.len() ==> v.tasks[id].ident.team
            < #[trigger] v.tasks[id].heirs[j]
}

/// Whether every founder is known, is of an older team, has the team among its heirs, and is
/// listed by its own team as long as it exists.
pub open spec fn sires_are_known(v: RoomView) -> bool {
    forall|t: usize| #[trigger]
        v.teams.contains_key(t) && v.teams[t].sire is Some ==> {
            let s = v.teams[t].sire->0;
            let p = v.tasks[s].ident.team;
            &&& v.tasks.contains_key(s)
            &&& p < t
            &&& v.tasks[s].heirs.contains(t)
            &&& v.teams.contains_key(p)
            &&& exists_now(v, s) ==> v.teams[p].tasks.contains(s)
        }
}

/// Whether teams, their tasks and their founders agree.
pub open spec fn bloodline(v: RoomView) -> bool {
    lists_its_own(v) && heirs_are_younger(v) && sires_are_known(v)
}

/// What stopping along the lineage asks for follows.
pub proof fn law_bloodline_is_enough(v: RoomView)
    requires
        bloodline(v),
    ensures
        lineage_ok(v),
        kin(v),
{
    assert forall|t: usize, i: int, j: int|
        v.teams.contains_key(t) && 0 <= i < v.teams[t].tasks.len() && v.tasks.contains_key(
            v.teams[t].tasks[i],
        ) && 0 <= j < v.tasks[v.teams[t].tasks[i]].heirs.len() implies t
        < #[trigger] v.tasks[v.teams[t].tasks[i]].heirs[j] by {
        let id = v.teams[t].tasks[i];
        assert(v.tasks[id].ident.team < v.tasks[id].heirs[j]);
    }
}

/// It holds where nothing has happened.
pub proof fn law_bloodline_begins(v: RoomView)
    requires
        v.tasks == Map::<usize, TaskBody>::empty(),
        v.teams.dom() == Set::<usize>::empty(),
    ensures
        bloodline(v),
{
    assert forall|t: usize| !v.teams.contains_key(t) by {
        assert(!v.teams.dom().contains(t));
    }
}

/// A task that comes keeps it.
pub proof fn law_coming_keeps_bloodline(v: RoomView, ident: TaskIdent)
    requires
        bloodline(v),
        !v.tasks.contains_key(ident.id),
    ensures
        bloodline(RoomView { tasks: v.tasks.insert(ident.id, new_body(ident)), ..v }),
{
    let w = RoomView { tasks: v.tasks.insert(ident.id, new_body(ident)), ..v };
    assert forall|t: usize, i: int|
        w.teams.contains_key(t) && 0 <= i < w.teams[t].tasks.len() implies w.tasks.contains_key(
        #[trigger] w.teams[t].tasks[i],
    ) && w.tasks[w.teams[t].tasks[i]].ident.team == t by {
        assert(v.tasks.contains_key(v.teams[t].tasks[i]));
    }
    assert forall|id: usize, j: int|
        w.tasks.contains_key(id) && 0 <= j < w.tasks[id].heirs.len() implies w.tasks[id].ident.team
        < #[trigger] w.tasks[id].heirs[j] by {
        assert(v.tasks[id].ident.team < v.tasks[id].heirs[j]);
    }
    assert(sires_are_known(w)) by {
        assert forall|t: usize| #[trigger]
            w.teams.contains_key(t) && w.teams[t].sire is Some implies w.tasks.contains_key(
            w.teams[t].sire->0,
        ) && w.tasks[w.teams[t].sire->0] == v.tasks[v.teams[t].sire->0] by {
            assert(v.teams.contains_key(t));
        }
    }
}

/// A task that joins its team keeps it.
pub proof fn law_signing_up_keeps_bloodline(v: RoomView, t: usize, id: usize)
    requires
        bloodline(v),
        v.teams.contains_key(t),
        v.tasks.contains_key(id),
        v.tasks[id].ident.team == t,
    ensures
        bloodline(signed_up(v, t, id)),
{
    let w = signed_up(v, t, id);
    assert forall|u: usize, i: int|
        w.teams.contains_key(u) && 0 <= i < w.teams[u].tasks.len() implies w.tasks.contains_key(
        #[trigger] w.teams[u].tasks[i],
    ) && w.tasks[w.teams[u].tasks[i]].ident.team == u by {
        if u != t || i < v.teams[u].tasks.len() {
            assert(w.teams[u].tasks[i] == v.teams[u].tasks[i]);
        }
    }
    assert forall|u: usize| #[trigger]
        w.teams.contains_key(u) && w.teams[u].sire is Some && exists_now(
            w,
            w.teams[u].sire->0,
        ) implies w.teams[w.tasks[w.teams[u].sire->0].ident.team].tasks.contains(
        w.teams[u].sire->0,
    ) by {
        assert(v.teams.contains_key(u));
        let s = v.teams[u].sire->0;
        let p = v.tasks[s].ident.team;
        let i = choose|i: int| 0 <= i < v.teams[p].tasks.len() && v.teams[p].tasks[i] == s;
        assert(w.teams[p].tasks[i] == s);
    }
    assert forall|u: usize| #[trigger] w.teams.contains_key(u) implies v.teams.contains_key(u)
        && w.teams[u].sire == v.teams[u].sire by {}
}

/// A team that is founded keeps it, where the founder is listed by its own team.
pub proof fn law_founding_keeps_bloodline(
    v: RoomView,
    t: usize,
    sire: Option<usize>,
    space: usize,
)
    requires
        bloodline(v),
        !v.teams.contains_key(t),
        sire matches Some(s) ==> {
            let p = v.tasks[s].ident.team;
            v.tasks.contains_key(s) && p < t && v.teams.contains_key(p)
                && v.teams[p].tasks.contains(s)
        },
    ensures
        bloodline(founded_by(v, t, sire, space)),
{
    let w = founded_by(v, t, sire, space);
    assert forall|id: usize| v.tasks.contains_key(id) implies #[trigger] w.tasks.contains_key(id)
        && w.tasks[id].ident == v.tasks[id].ident && w.tasks[id].buried == v.tasks[id].buried by {}
    assert forall|u: usize, i: int|
        w.teams.contains_key(u) && 0 <= i < w.teams[u].tasks.len() implies w.tasks.contains_key(
        #[trigger] w.teams[u].tasks[i],
    ) && w.tasks[w.teams[u].tasks[i]].ident.team == u by {
        assert(u != t);
        assert(w.teams[u].tasks[i] == v.teams[u].tasks[i]);
    }
    assert forall|id: usize, j: int|
        w.tasks.contains_key(id) && 0 <= j < w.tasks[id].heirs.len() implies w.tasks[id].ident.team
        < #[trigger] w.tasks[id].heirs[j] by {
        assert(v.tasks.contains_key(id));
        if j < v.tasks[id].heirs.len() {
            assert(w.tasks[id].heirs[j] == v.tasks[id].heirs[j]);
        }
    }
    assert forall|u: usize| #[trigger]
        w.teams.contains_key(u) && w.teams[u].sire is Some implies w.tasks[w.teams[u].sire->0].heirs.contains(
        u,
    ) by {
        let s = w.teams[u].sire->0;
        if u == t {
            assert(w.tasks[s].heirs[v.tasks[s].heirs.len() as int] == t);
        } else {
            assert(v.teams.contains_key(u));
            let j = choose|j: int| 0 <= j < v.tasks[s].heirs.len() && v.tasks[s].heirs[j] == u;
            assert(w.tasks[s].heirs[j] == u);
        }
    }
    assert forall|u: usize| #[trigger] w.teams.contains_key(u) && u != t implies v.teams.contains_key(
        u,
    ) && w.teams[u] == v.teams[u] by {}
}

/// Whatever changes nothing about who is there keeps it: turns, waits, wakes, deadlines, stops
/// and ends do.
pub proof fn law_same_people_keep_bloodline(v: RoomView, w: RoomView)
    requires
        bloodline(v),
        same_people(v, w),
    ensures
        bloodline(w),
{
    assert forall|id: usize| v.tasks.contains_key(id) implies #[trigger] w.tasks.contains_key(id)
        && w.tasks[id].ident == v.tasks[id].ident && w.tasks[id].heirs == v.tasks[id].heirs
        && w.tasks[id].buried == v.tasks[id].buried by {}
    assert forall|id: usize, j: int|
        w.tasks.contains_key(id) && 0 <= j < w.tasks[id].heirs.len() implies w.tasks[id].ident.team
        < #[trigger] w.tasks[id].heirs[j] by {
        assert(v.tasks.contains_key(id));
        assert(w.tasks[id].heirs[j] == v.tasks[id].heirs[j]);
    }
    assert forall|t: usize, i: int|
        w.teams.contains_key(t) && 0 <= i < w.teams[t].tasks.len() implies w.tasks.contains_key(
        #[trigger] w.teams[t].tasks[i],
    ) && w.tasks[w.teams[t].tasks[i]].ident.team == t by {
        assert(v.tasks.contains_key(v.teams[t].tasks[i]));
    }
}

proof fn lemma_living_sub(v: RoomView, ids: Seq<usize>)
    ensures
        forall|i: int|
            0 <= i < living(v, ids).len() ==> ids.contains(#[trigger] living(v, ids)[i]),
    decreases ids.len(),
{
    if ids.len() > 0 {
        let rest = ids.drop_last();
        lemma_living_sub(v, rest);
        assert forall|i: int| 0 <= i < living(v, ids).len() implies ids.contains(
            #[trigger] living(v, ids)[i],
        ) by {
            if i < living(v, rest).len() {
                assert(living(v, ids)[i] == living(v, rest)[i]);
                assert(rest.contains(living(v, rest)[i]));
                let j = choose|j: int| 0 <= j < rest.len() && rest[j] == living(v, rest)[i];
                assert(ids[j] == rest[j]);
            } else {
                assert(ids[ids.len() - 1] == ids.last());
            }
        }
    }
}

/// Tearing the room down leaves what stopping along the lineage asks for.
pub proof fn law_tearing_down_keeps_lineage(v: RoomView)
    requires
        lineage_ok(v),
        kin(v),
    ensures
        lineage_ok(ripped(v)),
        kin(ripped(v)),
{
    let w = ripped(v);
    assert forall|id: usize| #[trigger] w.tasks.contains_key(id) implies v.tasks.contains_key(id)
        && w.tasks[id] == v.tasks[id] by {}
    assert forall|t: usize, i: int, j: int|
        w.teams.contains_key(t) && 0 <= i < w.teams[t].tasks.len() && w.tasks.contains_key(
            w.teams[t].tasks[i],
        ) && 0 <= j < w.tasks[w.teams[t].tasks[i]].heirs.len() implies t
        < #[trigger] w.tasks[w.teams[t].tasks[i]].heirs[j] by {
        assert(v.tasks.contains_key(v.teams[t].tasks[i]));
        assert(t < v.tasks[v.teams[t].tasks[i]].heirs[j]);
    }
    assert forall|t: usize| #[trigger]
        w.teams.contains_key(t) && w.teams[t].sire is Some && w.tasks.contains_key(
            w.teams[t].sire->0,
        ) implies v.tasks[v.teams[t].sire->0] == w.tasks[w.teams[t].sire->0]
        && v.teams.contains_key(t) by {}
}

/// A team that forgets those that no longer exist keeps it.
pub proof fn law_pruning_keeps_bloodline(v: RoomView, t: usize)
    requires
        bloodline(v),
    ensures
        bloodline(team_pruned(v, t)),
{
    let w = team_pruned(v, t);
    if v.teams.contains_key(t) {
        let all = v.teams[t].tasks;
        lemma_living_sub(v, all);
        assert forall|u: usize, i: int|
            w.teams.contains_key(u) && 0 <= i < w.teams[u].tasks.len() implies w.tasks.contains_key(
            #[trigger] w.teams[u].tasks[i],
        ) && w.tasks[w.teams[u].tasks[i]].ident.team == u by {
            if u == t {
                assert(all.contains(living(v, all)[i]));
                let j = choose|j: int| 0 <= j < all.len() && all[j] == living(v, all)[i];
                assert(v.tasks.contains_key(v.teams[t].tasks[j]));
            } else {
                assert(w.teams[u].tasks[i] == v.teams[u].tasks[i]);
            }
        }
        assert forall|u: usize| #[trigger]
            w.teams.contains_key(u) && w.teams[u].sire is Some && exists_now(
                w,
                w.teams[u].sire->0,
            ) implies w.teams[w.tasks[w.teams[u].sire->0].ident.team].tasks.contains(
            w.teams[u].sire->0,
        ) by {
            assert(v.teams.contains_key(u));
            let s = v.teams[u].sire->0;
            if v.tasks[s].ident.team == t {
                lemma_living_has(v, all, s);
            }
        }
        assert forall|u: usize| #[trigger] w.teams.contains_key(u) implies v.teams.contains_key(u)
            && w.teams[u].sire == v.teams[u].sire by {}
    }
}

/// Clearing a husk away keeps it.
pub proof fn law_clearing_keeps_bloodline(room: Room, w: RoomView, me: usize)
    requires
        room.wf(),
        bloodline(room@),
        room@.husks.len() > 0,
        buried_one(room@, w, me),
    ensures
        bloodline(w),
{
    let v = room@;
    let id = v.husks[0];
    let (hads, keys) = choose|hads: Seq<bool>, keys: Seq<WakeKey>| #[trigger]
        buried_with(v, w, me, hads, keys);
    let a = RoomView {
        husks: v.husks.drop_first(),
        tasks: v.tasks.insert(id, (TaskBody { buried: true, ..v.tasks[id] })),
        ..v
    };
    let ident = v.tasks[id].ident;
    let b = wiped(a, me, WakeKey::Task { id }, hads);
    let c = if sole(b, ident.space) {
        swept(b, me, keys)
    } else {
        b
    };
    assert(room.husks@[0] == id);
    assert(v.tasks.contains_key(id));
    assert(bloodline(a)) by {
        assert forall|x: usize, j: int|
            a.tasks.contains_key(x) && 0 <= j < a.tasks[x].heirs.len() implies a.tasks[x].ident.team
            < #[trigger] a.tasks[x].heirs[j] by {
            assert(v.tasks[x].ident.team < v.tasks[x].heirs[j]);
        }
        assert forall|t: usize, i: int|
            a.teams.contains_key(t) && 0 <= i < a.teams[t].tasks.len() implies a.tasks.contains_key(
            #[trigger] a.teams[t].tasks[i],
        ) && a.tasks[a.teams[t].tasks[i]].ident.team == t by {
            assert(v.tasks.contains_key(v.teams[t].tasks[i]));
        }
    }
    lemma_cleared_people(room, w, me, hads, keys);
    law_same_people_keep_bloodline(a, c);
    law_pruning_keeps_bloodline(c, ident.team);
}

} // verus!
