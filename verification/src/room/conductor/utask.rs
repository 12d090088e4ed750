//! What a task asks of a pit.
use vstd::prelude::*;
use crate::bits::Ipi;
use crate::bits::{reaches_all, word_calls};
use crate::room::conductor::pit;
use crate::room::conductor::pit::{LastIdent, Pit, PitView, WaitKey};
use crate::room::conductor::pit::{last_of, noted, signalled, site_at, waited};
use crate::room::scheduler as hall;
use crate::room::scheduler::{HallView, Scene, Stride, Tock};
use crate::room::scheduler::{buried, far, lain_down, strides};
use crate::scheduler::Dispatch;
use crate::scheduler::lanes::Remains;

verus! {

/// Lets the next ready task of hart `me` run; with no other task the running one goes on.
pub fn starve(pit: &mut Pit, me: usize) -> (d: Dispatch)
    requires
        old(pit).wf(),
        me < old(pit)@.hall.lanes.len(),
        old(pit)@.hall.lanes[me as int].running is Some,
    ensures
        final(pit).wf(),
        ({
            let v = old(pit)@;
            let lane = v.hall.lanes[me as int];
            let after = if lane.starved.len() == 0 {
                lane
            } else {
                lane.rotated()
            };
            &&& d == (Dispatch { pa: after.running->0.trap.pa, arm: lane.starved.len() > 0 })
            &&& final(pit)@ == (PitView {
                hall: HallView { lanes: v.hall.lanes.update(me as int, after), ..v.hall },
                infos: v.infos.update(
                    me as int,
                    noted(
                        v.infos[me as int],
                        Stride::Run(d),
                        after.running,
                        None,
                        old(pit).badges@,
                    ),
                ),
                ..v
            })
        }),
        final(pit).hall.teams == old(pit).hall.teams,
        final(pit).hall.tie == old(pit).hall.tie,
        final(pit).badges == old(pit).badges,
{
    let d: Dispatch = hall::starve(&mut pit.hall, me);
    pit.settle(me, &Stride::Run(d), None);
    d
}

/// Whether `b` has the sites and the teams' badges of `a`, and hart `me` has its note.
pub open spec fn rest_kept(
    a: Pit,
    b: Pit,
    me: int,
    stride: Stride,
    left: Option<LastIdent>,
) -> bool {
    &&& b@.sites == a@.sites
    &&& b@.times == a@.times
    &&& b.badges == a.badges
    &&& b@.infos == a@.infos.update(
        me,
        noted(a@.infos[me], stride, b@.hall.lanes[me].running, left, a.badges@),
    )
}

/// Puts the task that runs on hart `me` to sleep for `ticks` and goes on with another one. The
/// deadline is for the clock.
pub fn park(pit: &mut Pit, me: usize, ticks: u64, scene: &Scene) -> (r: (Tock, Stride))
    requires
        old(pit).wf(),
        me < old(pit)@.hall.lanes.len(),
        old(pit)@.hall.lanes[me as int].running is Some,
        scene.now + ticks <= u64::MAX,
        old(pit)@.hall.next_handle < u64::MAX,
        scene.busy@.len() == old(pit)@.hall.lanes.len(),
        scene.again@.len() == old(pit)@.hall.lanes.len(),
    ensures
        final(pit).wf(),
        r.0 == (Tock { handle: old(pit)@.hall.next_handle, at: (scene.now + ticks) as u64 }),
        exists|mid: hall::Hall|
            lain_down(old(pit).hall, mid, me as int, r.0.at) && #[trigger] strides(
                mid,
                me,
                scene.busy@,
                scene.again@,
                far(scene.next_tock, scene.now),
                final(pit).hall,
                r.1,
            ),
        rest_kept(
            *old(pit),
            *final(pit),
            me as int,
            r.1,
            Some(last_of(old(pit)@.hall.lanes[me as int].running->0, old(pit).badges@)),
        ),
{
    let left: LastIdent = pit.leaving(me);
    let ghost before = *pit;
    let (tock, stride) = hall::park(&mut pit.hall, me, ticks, scene);
    proof {
        let mid = choose|mid: hall::Hall|
            lain_down(before.hall, mid, me as int, tock.at) && #[trigger] strides(
                mid,
                me,
                scene.busy@,
                scene.again@,
                far(scene.next_tock, scene.now),
                pit.hall,
                stride,
            );
        hall::lemma_stride_len(
            mid,
            me,
            scene.busy@,
            scene.again@,
            far(scene.next_tock, scene.now),
            pit.hall,
            stride,
        );
    }
    pit.settle(me, &stride, Some(left));
    (tock, stride)
}

/// Ends the task that runs on hart `me`, clears the ended tasks away and goes on with another
/// one.
pub fn reap(pit: &mut Pit, me: usize, scene: &Scene) -> (r: (Vec<Remains>, Stride))
    requires
        old(pit).wf(),
        me < old(pit)@.hall.lanes.len(),
        old(pit)@.hall.lanes[me as int].running is Some,
        scene.busy@.len() == old(pit)@.hall.lanes.len(),
        scene.again@.len() == old(pit)@.hall.lanes.len(),
    ensures
        final(pit).wf(),
        exists|mid: hall::Hall| #[trigger]
            buried(old(pit).hall, mid, me as int, r.0@) && strides(
                mid,
                me,
                scene.busy@,
                scene.again@,
                far(scene.next_tock, scene.now),
                final(pit).hall,
                r.1,
            ),
        rest_kept(
            *old(pit),
            *final(pit),
            me as int,
            r.1,
            Some(last_of(old(pit)@.hall.lanes[me as int].running->0, old(pit).badges@)),
        ),
{
    let left: LastIdent = pit.leaving(me);
    let ghost before = *pit;
    let (gone, stride) = hall::reap(&mut pit.hall, me, scene);
    proof {
        let mid = choose|mid: hall::Hall| #[trigger]
            buried(before.hall, mid, me as int, gone@) && strides(
                mid,
                me,
                scene.busy@,
                scene.again@,
                far(scene.next_tock, scene.now),
                pit.hall,
                stride,
            );
        hall::lemma_stride_len(
            mid,
            me,
            scene.busy@,
            scene.again@,
            far(scene.next_tock, scene.now),
            pit.hall,
            stride,
        );
    }
    pit.settle(me, &stride, Some(left));
    (gone, stride)
}

/// Lets the task that runs on hart `me` wait for an event: see [`pit::wait`].
pub fn wait(pit: &mut Pit, me: usize, key: WaitKey, dur: Option<u64>, scene: &Scene) -> (r: (
    Option<Tock>,
    Stride,
))
    requires
        old(pit).wf(),
        me < old(pit)@.hall.lanes.len(),
        old(pit)@.hall.lanes[me as int].running is Some,
        dur matches Some(d) ==> scene.now + d <= u64::MAX && old(pit)@.hall.next_handle < u64::MAX,
        scene.busy@.len() == old(pit)@.hall.lanes.len(),
        scene.again@.len() == old(pit)@.hall.lanes.len(),
    ensures
        final(pit).wf(),
        waited(*old(pit), me, key.0, dur, *scene, *final(pit), r.0, r.1),
{
    pit::wait(pit, me, key, dur, scene)
}

/// An event: see [`pit::wake`].
pub fn wake(pit: &mut Pit, me: usize, key: WaitKey) -> (calls: Option<Vec<Ipi>>)
    requires
        old(pit).wf(),
        me < old(pit)@.hall.lanes.len(),
    ensures
        final(pit).wf(),
        final(pit)@ == signalled(old(pit)@, me as int, key.0),
        final(pit).hall.teams == old(pit).hall.teams,
        final(pit).hall.tie == old(pit).hall.tie,
        final(pit).badges == old(pit).badges,
        calls is Some <==> site_at(old(pit)@.sites, key.0).waiters.len() > 0,
        calls matches Some(c) ==> word_calls(c@, old(pit).hall.tie.waiting) && reaches_all(
            c@,
            old(pit).hall.tie.waiting,
        ),
{
    pit::wake(pit, me, key)
}

} // verus!
