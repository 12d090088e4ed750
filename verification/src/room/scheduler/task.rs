//! Letting a task go.
use vstd::prelude::*;
use crate::room::Room;
use crate::room::scheduler::table::launch;
use crate::room::scheduler::table::launched;
use crate::unit::task::TaskState;

verus! {

/// Puts a task that was just let go into the queue of hart `me`, and wakes one sleeping
/// hart.
pub fn push(room: &mut Room, me: usize, id: usize)
    requires
        old(room).wf(),
        me < old(room).lanes@.len(),
        old(room)@.flying.contains(id),
        old(room)@.tasks[id].state == TaskState::Starved,
    ensures
        final(room).wf(),
        final(room)@ == launched(old(room)@, me, id),
{
    launch(room, me, id);
}

} // verus!
