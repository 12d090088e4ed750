//! The life of a small machine: task counts, the halt, and one word of sleeping harts.
use vstd::prelude::*;
use crate::bits::bit;
use crate::bits::{lemma_clear_bit, lemma_set_bit};

verus! {

/// The machine's life so far.
#[derive(Clone, Copy, Debug, PartialEq, Eq, Structural)]
pub struct Lifecycle {
    /// Tasks produced.
    pub spawned: usize,
    /// Tasks that have ended.
    pub exited: usize,
    /// Whether the reset is under way.
    pub halting: bool,
    /// Harts that sleep, one bit each.
    pub sleeping: u64,
}

/// Counts one produced task.
pub fn on_task_spawned(life: &mut Lifecycle)
    ensures
        *final(life) == (Lifecycle { spawned: old(life).spawned.wrapping_add(1), ..*old(life) }),
{
    life.spawned = life.spawned.wrapping_add(1);
}

/// Counts one task that has ended.
pub fn on_task_exited(life: &mut Lifecycle)
    ensures
        *final(life) == (Lifecycle { exited: old(life).exited.wrapping_add(1), ..*old(life) }),
{
    life.exited = life.exited.wrapping_add(1);
}

/// Whether there were tasks and all of them have ended.
pub fn all_exited(life: &Lifecycle) -> (yes: bool)
    ensures
        yes == (life.spawned > 0 && life.exited == life.spawned),
{
    let spawned: usize = life.spawned;
    spawned > 0 && life.exited == spawned
}

/// Starts the reset. Gives whether this call is the first, which resets the machine; every
/// other one only sleeps.
pub fn halt_all(life: &mut Lifecycle) -> (resets: bool)
    ensures
        resets == !old(life).halting,
        *final(life) == (Lifecycle { halting: true, ..*old(life) }),
{
    let resets: bool = !life.halting;
    life.halting = true;
    resets
}

/// Marks `hart` as sleeping.
pub fn mark_sleeping(life: &mut Lifecycle, hart: usize)
    requires
        hart < 64,
    ensures
        forall|h: int|
            0 <= h < 64 ==> (#[trigger] bit(final(life).sleeping, h) <==> (h == hart || bit(
                old(life).sleeping,
                h,
            ))),
        *final(life) == (Lifecycle { sleeping: final(life).sleeping, ..*old(life) }),
{
    proof {
        lemma_set_bit(life.sleeping, hart as int);
    }
    life.sleeping = life.sleeping | (1u64 << (hart as u64));
}

/// Takes the sleeping mark of `hart` away.
pub fn mark_awake(life: &mut Lifecycle, hart: usize)
    requires
        hart < 64,
    ensures
        forall|h: int|
            0 <= h < 64 ==> (#[trigger] bit(final(life).sleeping, h) <==> (h != hart && bit(
                old(life).sleeping,
                h,
            ))),
        *final(life) == (Lifecycle { sleeping: final(life).sleeping, ..*old(life) }),
{
    proof {
        lemma_clear_bit(life.sleeping, hart as int);
    }
    life.sleeping = life.sleeping & !(1u64 << (hart as u64));
}

/// The mask of harts to interrupt; `None` where nobody sleeps.
pub fn wake_sleepers(life: &Lifecycle) -> (mask: Option<u64>)
    ensures
        mask == (if life.sleeping == 0 {
            None
        } else {
            Some(life.sleeping)
        }),
{
    if life.sleeping == 0 {
        return None;
    }
    Some(life.sleeping)
}

} // verus!
