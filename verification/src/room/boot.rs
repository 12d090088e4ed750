//! Opening a room, and what the makers of teams and lives tell it.
use std::collections::VecDeque;
use vstd::prelude::*;
use crate::bits::{Ipi, MAX_HART_SLOTS};
use crate::room::conductor::Score;
use crate::room::messenger::wait::holder::lemma_same_floor;
use crate::room::messenger::wait::site::{SiteView, Sites, WakeKey};
use crate::room::messenger::wait::someone_waits;
use crate::room::scheduler::hart::{Lane, Scheduler, bodies, flying};
use crate::room::scheduler::ident::Badge;
use crate::room::scheduler::table::launch;
use crate::room::scheduler::table::launched;
use crate::room::{CullStats, Room, RoomView, Team, TeamView};
use crate::table::Table;
use crate::unit::task::{Task, TaskBody, TaskState};

verus! {

/// What one hart brings along: the end of its trap stack and the address of its own data.
#[derive(Clone, Copy, Debug, PartialEq, Eq, Structural)]
pub struct Desk {
    pub edge: usize,
    pub anchor: usize,
}

/// A room with one hart for each desk, in which nothing has happened.
pub fn open(desks: &Vec<Desk>) -> (room: Room)
    requires
        0 < desks@.len() <= MAX_HART_SLOTS,
    ensures
        room.wf(),
        room@.lanes.len() == desks@.len(),
        forall|h: int|
            0 <= h < desks@.len() ==> #[trigger] room@.lanes[h] == (Lane {
                hart: h as usize,
                edge: desks@[h].edge,
                anchor: desks@[h].anchor,
                running: None,
                queue: Seq::<usize>::empty(),
                badge: Badge::Blank,
            }),
        room@.tasks == Map::<usize, TaskBody>::empty(),
        room@.flying == Set::<usize>::empty(),
        room@.teams == Map::<usize, TeamView>::empty(),
        room@.spaces == Map::<usize, usize>::empty(),
        room@.lives == Set::<usize>::empty(),
        room@.sites == Map::<WakeKey, SiteView>::empty(),
        room@.holders == Map::<u64, (WakeKey, usize)>::empty(),
        room@.clock == Map::<u64, u64>::empty(),
        room@.next_ticket == 0,
        room@.husks == Seq::<usize>::empty(),
        room@.doomed == Map::<usize, usize>::empty(),
        room@.pending == 0,
        room@.outbox == Seq::<Ipi>::empty(),
        room@.culled == (CullStats { held: 0, starved: 0, blocked: 0, nudged: 0 }),
        room@.reasons == Seq::new(MAX_HART_SLOTS as nat, |h: int| 0usize),
        room@.score.pushed == 0 && room@.score.reaped == 0 && room@.score.cursor == 0,
        !room@.score.rooted && !room@.score.halting && room@.score.arrived == 0,
        room@.score.kicks == 0 && room@.score.fallback == 0 && room@.score.hooks is None,
        forall|h: int| !room@.score.waits(h),
{
    let mut lanes: Vec<Scheduler> = Vec::new();
    let tasks: Table<usize, Task> = Table::new();
    let mut h: usize = 0;
    while h < desks.len()
        invariant
            h <= desks@.len(),
            lanes@.len() == h,
            tasks@ == Map::<usize, Task>::empty(),
            forall|i: int|
                0 <= i < h ==> (#[trigger] lanes@[i]).hart == i && lanes@[i].wf(tasks@)
                    && lanes@[i].lane() == (Lane {
                    hart: i as usize,
                    edge: desks@[i].edge,
                    anchor: desks@[i].anchor,
                    running: None,
                    queue: Seq::<usize>::empty(),
                    badge: Badge::Blank,
                }),
        decreases desks@.len() - h,
    {
        let lane: Scheduler = Scheduler::new(h, desks[h].edge, desks[h].anchor);
        assert(lane.wf(tasks@));
        assert(lane.lane().hart == h);
        lanes.push(lane);
        h += 1;
    }
    let mut reasons: Vec<usize> = Vec::new();
    while reasons.len() < MAX_HART_SLOTS
        invariant
            reasons@.len() <= MAX_HART_SLOTS,
            forall|h: int| 0 <= h < reasons@.len() ==> #[trigger] reasons@[h] == 0,
        decreases MAX_HART_SLOTS - reasons@.len(),
    {
        reasons.push(0);
    }
    let room: Room = Room {
        score: Score::new(),
        lanes,
        tasks,
        teams: Table::new(),
        spaces: Table::new(),
        lives: Table::new(),
        sites: Sites::new(),
        holders: Table::new(),
        clock: Table::new(),
        next_ticket: 0,
        husks: VecDeque::new(),
        doomed: Table::new(),
        pending: 0,
        culled: CullStats { held: 0, starved: 0, blocked: 0, nudged: 0 },
        reasons,
        outbox: Vec::new(),
    };
    proof {
        assert(room@.reasons =~= Seq::new(MAX_HART_SLOTS as nat, |h: int| 0usize));
        assert(room@.tasks =~= Map::<usize, TaskBody>::empty());
        assert(room@.flying =~= Set::<usize>::empty());
        assert(room@.teams =~= Map::<usize, TeamView>::empty());
        assert(room@.lives =~= Set::<usize>::empty());
        assert(room@.sites =~= Map::<WakeKey, SiteView>::empty());
    }
    room
}

/// A life begins.
pub fn born(room: &mut Room, life: usize)
    requires
        old(room).wf(),
    ensures
        final(room).wf(),
        final(room)@ == (RoomView { lives: old(room)@.lives.insert(life), ..old(room)@ }),
{
    room.lives.insert(life, ());
    proof {
        lemma_same_floor(*old(room), *room);
        assert(room@.lives =~= old(room)@.lives.insert(life));
    }
}

/// Whether nobody waits at a site that depends on `life`.
pub open spec fn unwaited(v: RoomView, life: usize) -> bool {
    forall|k: WakeKey| #[trigger] someone_waits(v, k) ==> v.sites[k].life != life
}

/// Whether nobody waits at a site that depends on `life` but at those of `a` and `b`.
pub open spec fn waited_only(v: RoomView, life: usize, a: WakeKey, b: WakeKey) -> bool {
    forall|k: WakeKey| #[trigger]
        someone_waits(v, k) && v.sites[k].life == life ==> k == a || k == b
}

/// A life ends. What depends on it has been wiped by then: nobody waits for it.
pub fn expire(room: &mut Room, life: usize)
    requires
        old(room).wf(),
        unwaited(old(room)@, life),
    ensures
        final(room).wf(),
        final(room)@ == (RoomView { lives: old(room)@.lives.remove(life), ..old(room)@ }),
{
    room.lives.remove(life);
    proof {
        assert forall|id: usize| #[trigger] room.tasks@.contains_key(id) implies room.homed(id) by {
            assert(old(room).homed(id));
        }
        assert forall|k: WakeKey| #[trigger]
            room.sites@.contains_key(k) implies room.sites@[k].chain.order().len() == 0
            || room.lives@.contains_key(room.sites@[k].life) by {
            assert(old(room)@.sites.contains_key(k));
            assert(old(room)@.sites[k] == old(room).sites@[k].held());
            assert(someone_waits(old(room)@, k) ==> old(room)@.sites[k].life != life);
        }
        assert(room@.lives =~= old(room)@.lives.remove(life));
    }
}

/// So many hold the address space `space`.
pub fn count_space(room: &mut Room, space: usize, holders: usize)
    requires
        old(room).wf(),
    ensures
        final(room).wf(),
        final(room)@ == (RoomView {
            spaces: old(room)@.spaces.insert(space, holders),
            ..old(room)@
        }),
{
    room.spaces.insert(space, holders);
    proof {
        lemma_same_floor(*old(room), *room);
        assert(room@ =~= (RoomView {
            spaces: old(room)@.spaces.insert(space, holders),
            ..old(room)@
        }));
    }
}

/// The room after the team `t` was founded in `space` by the task `sire`.
pub open spec fn founded_by(v: RoomView, t: usize, sire: Option<usize>, space: usize) -> RoomView {
    RoomView {
        teams: v.teams.insert(t, TeamView { sire, space, tasks: Seq::empty() }),
        tasks: match sire {
            Some(id) => v.tasks.insert(
                id,
                TaskBody { heirs: v.tasks[id].heirs.push(t), ..v.tasks[id] },
            ),
            None => v.tasks,
        },
        ..v
    }
}

/// Founds the team `t` in the address space `space`. The task that does so, if one does,
/// has the team among its heirs. Numbers are given in the order in which teams are made, so
/// the number is new, and higher than that of the founder's own team.
pub fn found(room: &mut Room, t: usize, sire: Option<usize>, space: usize)
    requires
        old(room).wf(),
        !old(room)@.teams.contains_key(t),
        sire matches Some(id) ==> old(room)@.tasks.contains_key(id) && old(
            room,
        )@.tasks[id].ident.team < t,
    ensures
        final(room).wf(),
        final(room)@ == founded_by(old(room)@, t, sire, space),
{
    let ghost before = *room;
    let team: Team = Team { sire, space, tasks: Vec::new() };
    let ghost held = team.held();
    assert(held =~= (TeamView { sire, space, tasks: Seq::empty() }));
    room.teams.insert(t, team);
    proof {
        lemma_same_floor(before, *room);
        assert(room@.teams =~= before@.teams.insert(t, held));
    }
    if let Some(id) = sire {
        let ghost mid = *room;
        match room.tasks.get_mut(id) {
            Some(task) => {
                task.heirs.push(t);
            },
            None => {},
        }
        proof {
            assert(room.tasks@.dom() =~= mid.tasks@.dom());
            assert(bodies(room.tasks@) =~= bodies(mid.tasks@).insert(
                id,
                TaskBody {
                    heirs: bodies(mid.tasks@)[id].heirs.push(t),
                    ..bodies(mid.tasks@)[id]
                },
            ));
            assert(flying(room.tasks@) =~= flying(mid.tasks@));
            Room::lemma_heirs_step(mid, *room, id);
        }
    }
    assert(room@ =~= founded_by(before@, t, sire, space));
}

/// The room after the task `id` has joined the team `t`.
pub open spec fn signed_up(v: RoomView, t: usize, id: usize) -> RoomView {
    RoomView {
        teams: v.teams.insert(
            t,
            TeamView { tasks: v.teams[t].tasks.push(id), ..v.teams[t] },
        ),
        ..v
    }
}

/// The task `id`, which is of the team `t`, is listed by it.
pub fn sign_up(room: &mut Room, t: usize, id: usize)
    requires
        old(room).wf(),
        old(room)@.teams.contains_key(t),
        old(room)@.tasks.contains_key(id),
        old(room)@.tasks[id].ident.team == t,
    ensures
        final(room).wf(),
        final(room)@ == signed_up(old(room)@, t, id),
{
    let ghost before = *room;
    assert(before@.teams[t] == before.teams@[t].held());
    match room.teams.get_mut(t) {
        Some(team) => {
            team.tasks.push(id);
        },
        None => {},
    }
    proof {
        lemma_same_floor(before, *room);
        assert(room.teams@[t].held() =~= (TeamView {
            tasks: before@.teams[t].tasks.push(id),
            ..before@.teams[t]
        }));
        assert(room@.teams =~= before@.teams.insert(t, room.teams@[t].held()));
    }
}

/// Lets a held task go: it is ready at hart `me`, and one sleeping hart is woken.
pub fn let_go(room: &mut Room, me: usize, id: usize)
    requires
        old(room).wf(),
        me < old(room).lanes@.len(),
        old(room)@.tasks.contains_key(id),
        old(room)@.tasks[id].state == TaskState::Held,
        !old(room)@.flying.contains(id),
    ensures
        final(room).wf(),
        final(room)@ == launched(
            (RoomView { flying: old(room)@.flying.insert(id), ..old(room)@ }).set_state(
                id,
                TaskState::Starved,
            ),
            me,
            id,
        ),
{
    room.release_held(id);
    room.transform(id, TaskState::Starved);
    assert(room@.lanes.len() == room.lanes@.len());
    launch(room, me, id);
}

} // verus!
