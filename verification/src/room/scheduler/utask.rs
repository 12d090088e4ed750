//! What a task can ask the room for.
use vstd::prelude::*;
use crate::room::Room;
use crate::room::messenger;
use crate::room::messenger::handoff::{GateError, Handoff};
use crate::room::messenger::reap::Leaving;
use crate::room::messenger::reap::{departed, leaving_of};
use crate::room::messenger::wait::{
    answered, beacon_at, block_contract, off, slots_kept, someone_waits, woken,
};
use crate::room::messenger::wait::site::WakeKey;

verus! {

/// The running task of hart `me` gives way at once.
pub fn starve(room: &mut Room, me: usize) -> (pa: usize)
    requires
        old(room).wf(),
        me < old(room).lanes@.len(),
        old(room)@.lanes[me as int].running is Some,
    ensures
        final(room).wf(),
        final(room)@ == old(room)@.given_way(me as int),
        pa == final(room)@.tasks[final(room)@.lanes[me as int].running->0].ident.frame,
{
    room.starve(me)
}

/// The running task of hart `me` sleeps; see [`messenger::wait::park`].
pub fn park(room: &mut Room, me: usize, life: usize, dur: Option<u64>, now: u64) -> (r: Result<
    Handoff<()>,
    GateError,
>)
    requires
        old(room).wf(),
        me < old(room).lanes@.len(),
        dur matches Some(d) ==> now + d <= u64::MAX,
        old(room)@.lanes[me as int].running is Some ==> !beacon_at(
            old(room)@,
            WakeKey::Alarm { task: old(room)@.lanes[me as int].running->0 },
        ),
    ensures
        final(room).wf(),
        old(room)@.lanes[me as int].running is None ==> r == Ok::<Handoff<()>, GateError>(
            Handoff::Idle,
        ) && final(room)@ == old(room)@,
        old(room)@.lanes[me as int].running is Some ==> block_contract(
            old(room)@,
            final(room)@,
            me,
            WakeKey::Alarm { task: old(room)@.lanes[me as int].running->0 },
            life,
            dur,
            now,
            r,
        ),
{
    messenger::wait::park(room, me, life, dur, now)
}

/// The running task of hart `me` ends; see [`messenger::reap::quit`].
pub fn reap(room: &mut Room, me: usize) -> (l: Leaving)
    requires
        old(room).wf(),
        old(room)@.settled(),
        me < old(room).lanes@.len(),
        old(room)@.lanes[me as int].running is Some,
    ensures
        final(room).wf(),
        final(room)@.settled(),
        final(room)@ == departed(old(room)@, me),
        l == leaving_of(old(room)@, me),
{
    messenger::reap::quit(room, me)
}

/// The running task of hart `me` waits for `key`; see [`messenger::wait::block`].
pub fn wait(
    room: &mut Room,
    me: usize,
    key: WakeKey,
    life: usize,
    dur: Option<u64>,
    now: u64,
) -> (r: Result<Handoff<()>, GateError>)
    requires
        old(room).wf(),
        me < old(room).lanes@.len(),
        dur matches Some(d) ==> now + d <= u64::MAX,
    ensures
        final(room).wf(),
        block_contract(old(room)@, final(room)@, me, key, life, dur, now, r),
{
    messenger::wait::wait(room, me, key, life, dur, now)
}

/// Wakes `key`; see [`messenger::wait::wake`].
pub fn wake(room: &mut Room, me: usize, key: WakeKey, life: usize) -> (hit: bool)
    requires
        old(room).wf(),
        !old(room)@.alive(life) ==> !someone_waits(old(room)@, key),
    ensures
        final(room).wf(),
        hit == (old(room)@.alive(life) && someone_waits(old(room)@, key)),
        exists|had: bool, hads: Seq<bool>|
            final(room)@ == #[trigger] woken(old(room)@, me, key, life, had, hads),
        slots_kept(old(room)@, final(room)@),
        hit ==> off(old(room)@, final(room)@, old(room)@.sites[key].line[0]),
{
    messenger::wait::wake(room, me, key, life)
}

/// The running task of hart `me` waits for the end of `tid`; see
/// [`messenger::wait::join`]. A task that was never entered is refused.
pub fn join(room: &mut Room, me: usize, tid: usize, life: usize, dur: Option<u64>, now: u64) -> (r:
    Result<Handoff<bool>, GateError>)
    requires
        old(room).wf(),
        me < old(room).lanes@.len(),
        dur matches Some(d) ==> now + d <= u64::MAX,
    ensures
        final(room).wf(),
        ({
            let v = old(room)@;
            let over = v.tasks[tid].buried || v.tasks[tid].state is Reaped;
            if !v.tasks.contains_key(tid) {
                r == Err::<Handoff<bool>, GateError>(GateError::Denied) && final(room)@ == v
            } else if over {
                r == Ok::<Handoff<bool>, GateError>(Handoff::Resume(true)) && final(room)@ == v
            } else if dur == Some(0u64) {
                r == Ok::<Handoff<bool>, GateError>(Handoff::Resume(false)) && final(room)@ == v
            } else {
                exists|b: Result<Handoff<()>, GateError>| #[trigger]
                    block_contract(
                        v,
                        final(room)@,
                        me,
                        WakeKey::Task { id: tid },
                        life,
                        dur,
                        now,
                        b,
                    ) && r == answered(b)
            }
        }),
{
    let mut reaped: bool = false;
    match room.tasks.get(tid) {
        None => {
            return Err(GateError::Denied);
        },
        Some(t) => {
            assert(room@.tasks[tid] == t.body());
            reaped = t.buried;
            if let crate::unit::task::TaskState::Reaped = t.state {
                reaped = true;
            }
        },
    }
    messenger::wait::join(room, me, tid, life, reaped, dur, now)
}

/// The running task of hart `me` waits for `key` as long as it takes.
pub fn wait_forever(room: &mut Room, me: usize, key: WakeKey, life: usize) -> (r: Result<
    Handoff<()>,
    GateError,
>)
    requires
        old(room).wf(),
        me < old(room).lanes@.len(),
    ensures
        final(room).wf(),
        block_contract(old(room)@, final(room)@, me, key, life, None, 0, r),
{
    messenger::wait::wait(room, me, key, life, None, 0)
}

} // verus!
