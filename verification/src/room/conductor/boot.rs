//! Starting a pit.
use vstd::prelude::*;
use crate::bits::MAX_HART_SLOTS;
use crate::room::conductor::pit::{Current, Pit, SiteView};
use crate::room::conductor::pit::goes_on;
use crate::room::conductor::trap::run;
use crate::room::scheduler as hall;
use crate::room::scheduler::{Hall, Scene, Stride};
use crate::scheduler::Lane;
use crate::table::Table;
use crate::task::Task;

verus! {

/// A pit with one hart for each trap stack, in which nothing has happened.
pub fn init(tops: &Vec<usize>) -> (pit: Pit)
    requires
        0 < tops@.len() <= MAX_HART_SLOTS,
    ensures
        pit.wf(),
        pit@.hall.lanes.len() == tops@.len(),
        forall|h: int|
            0 <= h < tops@.len() ==> #[trigger] pit@.hall.lanes[h] == (Lane {
                hart: h as usize,
                top: tops@[h],
                running: None,
                starved: Seq::empty(),
            }),
        pit@.hall.blocked == Map::<u64, Task>::empty(),
        pit@.hall.reaped.len() == 0,
        pit@.hall.next_handle == 0,
        pit@.sites == Map::<u64, SiteView>::empty(),
        pit@.times == Map::<u64, u64>::empty(),
        pit@.infos.len() == tops@.len(),
        forall|h: int| 0 <= h < tops@.len() ==> #[trigger] pit@.infos[h] is None,
        pit.hall.teams@.len() == 0,
        pit.hall.tie.pushed == 0 && pit.hall.tie.reaped == 0,
        forall|h: int| !pit.hall.tie.waiting.has(h),
{
    let room: Hall = hall::init(tops);
    let mut infos: Vec<Option<Current>> = Vec::new();
    while infos.len() < tops.len()
        invariant
            infos@.len() <= tops@.len(),
            forall|h: int| 0 <= h < infos@.len() ==> #[trigger] infos@[h] is None,
        decreases tops@.len() - infos@.len(),
    {
        infos.push(None);
    }
    let pit: Pit = Pit {
        hall: room,
        sites: Table::new(),
        times: Table::new(),
        infos,
        badges: Vec::new(),
    };
    assert(pit@.sites =~= Map::<u64, SiteView>::empty());
    pit
}

/// Where a hart with nothing to do starts.
pub fn idle(pit: &mut Pit, me: usize, scene: &Scene) -> (stride: Stride)
    requires
        old(pit).wf(),
        me < old(pit)@.hall.lanes.len(),
        scene.busy@.len() == old(pit)@.hall.lanes.len(),
        scene.again@.len() == old(pit)@.hall.lanes.len(),
    ensures
        final(pit).wf(),
        goes_on(*old(pit), me, *scene, None, *final(pit), stride),
{
    run(pit, me, scene)
}

} // verus!
