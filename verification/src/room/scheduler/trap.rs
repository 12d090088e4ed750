//! The way out of a trap.
use vstd::prelude::*;
use crate::room::Room;

verus! {

/// What hart `me` resumes after a trap: with a running task, a tick of its quantum is
/// spent; without one, there is nothing to resume and the hart fetches work.
pub fn run(room: &mut Room, me: usize) -> (pa: Option<usize>)
    requires
        old(room).wf(),
        me < old(room).lanes@.len(),
    ensures
        final(room).wf(),
        final(room)@ == old(room)@.ticked(me as int),
        pa is None <==> old(room)@.lanes[me as int].running is None,
        pa is Some ==> pa->0 == final(room)@.tasks[final(room)@.lanes[me as int].running->0].ident.frame,
{
    room.advance(me)
}

} // verus!
