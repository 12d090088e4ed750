//! Letting tasks into a pit.
use vstd::prelude::*;
use crate::bits::Ipi;
use crate::bits::{reaches_all, word_calls};
use crate::room::conductor::pit::{Pit, PitView};
use crate::room::scheduler as hall;
use crate::room::scheduler::HallView;
use crate::room::tie::Tie;
use crate::scheduler::lanes::{rolls, same_teams};
use crate::task::Task;

verus! {

/// Lets a new task in: it joins its team and the queue of hart `me`. The calls wake the
/// sleeping harts.
pub fn push(pit: &mut Pit, me: usize, task: Task) -> (calls: Vec<Ipi>)
    requires
        old(pit).wf(),
        me < old(pit)@.hall.lanes.len(),
        task.state is Starved,
        task.team < old(pit).hall.teams@.len(),
        old(pit)@.hall.held(task.id) == 0,
    ensures
        final(pit).wf(),
        ({
            let v = old(pit)@;
            final(pit)@ == (PitView {
                hall: HallView {
                    lanes: v.hall.lanes.update(me as int, v.hall.lanes[me as int].pushed(task)),
                    ..v.hall
                },
                ..v
            })
        }),
        final(pit).badges == old(pit).badges,
        same_teams(old(pit).hall.teams@, final(pit).hall.teams@),
        rolls(final(pit).hall.teams@) == rolls(old(pit).hall.teams@).update(
            task.team as int,
            rolls(old(pit).hall.teams@)[task.team as int].push(task.id),
        ),
        final(pit).hall.tie == (Tie {
            pushed: old(pit).hall.tie.pushed.wrapping_add(1),
            ..old(pit).hall.tie
        }),
        word_calls(calls@, old(pit).hall.tie.waiting),
        reaches_all(calls@, old(pit).hall.tie.waiting),
{
    hall::push(&mut pit.hall, me, task)
}

} // verus!
