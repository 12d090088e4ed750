//! What a pit does at a trap.
use vstd::prelude::*;
use crate::room::conductor::pit::Pit;
use crate::room::conductor::pit::goes_on;
use crate::room::scheduler::{Scene, Stride};

verus! {

/// What hart `me` does next: see [`crate::room::scheduler::run`]. A task that comes on is
/// noted.
pub fn run(pit: &mut Pit, me: usize, scene: &Scene) -> (stride: Stride)
    requires
        old(pit).wf(),
        me < old(pit)@.hall.lanes.len(),
        scene.busy@.len() == old(pit)@.hall.lanes.len(),
        scene.again@.len() == old(pit)@.hall.lanes.len(),
    ensures
        final(pit).wf(),
        goes_on(*old(pit), me, *scene, None, *final(pit), stride),
{
    pit.go_on(me, scene, None)
}

} // verus!
