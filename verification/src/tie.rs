//! The tie between the harts: task counts, the halt, and the set of harts that wait.
use vstd::prelude::*;
use crate::bits::{Bitmap, Ipi, MAX_HART_SLOTS};
use crate::bits::{reaches_all, word_calls};

verus! {

/// The state that ties the harts together.
pub struct Tie {
    /// Tasks queued so far.
    pub pushed: usize,
    /// Tasks that have ended.
    pub reaped: usize,
    /// Whether some hart leads the halt.
    pub halting: bool,
    /// Harts that have arrived at the halt.
    pub arrived: usize,
    /// Harts that wait for an interrupt.
    pub waiting: Bitmap,
}

impl Tie {
    /// A machine on which nothing has happened.
    pub fn new() -> (t: Tie)
        ensures
            t.pushed == 0 && t.reaped == 0 && t.arrived == 0,
            !t.halting,
            forall|h: int| !t.waiting.has(h),
    {
        Tie { pushed: 0, reaped: 0, halting: false, arrived: 0, waiting: Bitmap::new() }
    }
}

/// Counts one queued task. The counter wraps, as machine counters do.
pub fn push(tie: &mut Tie)
    ensures
        *final(tie) == (Tie { pushed: old(tie).pushed.wrapping_add(1), ..*old(tie) }),
{
    tie.pushed = tie.pushed.wrapping_add(1);
}

/// Counts one task that has ended.
pub fn exit(tie: &mut Tie)
    ensures
        *final(tie) == (Tie { reaped: old(tie).reaped.wrapping_add(1), ..*old(tie) }),
{
    tie.reaped = tie.reaped.wrapping_add(1);
}

/// Whether there were tasks and all of them have ended.
pub open spec fn is_done(tie: Tie) -> bool {
    tie.pushed > 0 && tie.reaped == tie.pushed
}

/// Computes [`is_done`].
pub fn done(tie: &Tie) -> (yes: bool)
    ensures
        yes == is_done(*tie),
{
    tie.pushed > 0 && tie.reaped == tie.pushed
}

/// What a hart that has seen every task end is to do next.
pub enum Halt {
    /// This hart leads: it makes these calls, and resets the machine once every hart has
    /// arrived.
    Lead(Vec<Ipi>),
    /// Another hart leads: this one sleeps until the reset.
    Follow,
}

/// Arrives at the halt. The first hart to arrive leads.
pub fn halt(tie: &mut Tie) -> (h: Halt)
    ensures
        *final(tie) == (Tie {
            arrived: old(tie).arrived.wrapping_add(1),
            halting: true,
            ..*old(tie)
        }),
        h is Lead <==> !old(tie).halting,
        h is Lead ==> reaches_all(h->Lead_0@, old(tie).waiting) && word_calls(
            h->Lead_0@,
            old(tie).waiting,
        ),
{
    tie.arrived = tie.arrived.wrapping_add(1);
    if tie.halting {
        Halt::Follow
    } else {
        tie.halting = true;
        Halt::Lead(wake_all(tie))
    }
}

/// Whether the leader may reset the machine: every hart has arrived.
pub fn gathered(tie: &Tie, hart_count: usize) -> (yes: bool)
    ensures
        yes == (tie.arrived >= hart_count),
{
    tie.arrived >= hart_count
}

/// Whether `b` is `a` but for the waiting harts, among which `hart` is if `mark` says so.
pub open spec fn marked(a: Tie, b: Tie, hart: usize, mark: bool) -> bool {
    &&& b == (Tie { waiting: b.waiting, ..a })
    &&& forall|h: int| #[trigger]
        b.waiting.has(h) <==> (if h == hart {
            mark
        } else {
            a.waiting.has(h)
        })
}

/// Marks `hart` as waiting for an interrupt. The caller looks for work once more before it
/// sleeps.
pub fn sleep(tie: &mut Tie, hart: usize)
    requires
        hart < MAX_HART_SLOTS,
    ensures
        marked(*old(tie), *final(tie), hart, true),
{
    tie.waiting.set(hart);
}

/// Takes the waiting mark of `hart` away.
pub fn wake(tie: &mut Tie, hart: usize)
    requires
        hart < MAX_HART_SLOTS,
    ensures
        marked(*old(tie), *final(tie), hart, false),
{
    tie.waiting.clear(hart);
}

/// The calls that interrupt every waiting hart, one for each word that has any.
pub fn wake_all(tie: &Tie) -> (calls: Vec<Ipi>)
    ensures
        word_calls(calls@, tie.waiting),
        reaches_all(calls@, tie.waiting),
{
    tie.waiting.calls()
}

/// Marking a hart that did not wait and taking the mark away again leaves the set of
/// waiting harts as it was.
pub proof fn law_sleep_then_wake(a: Tie, b: Tie, c: Tie, hart: usize)
    requires
        !a.waiting.has(hart as int),
        marked(a, b, hart, true),
        marked(b, c, hart, false),
    ensures
        forall|h: int| c.waiting.has(h) <==> a.waiting.has(h),
        c.pushed == a.pushed && c.reaped == a.reaped && c.arrived == a.arrived,
{
    assert forall|h: int| c.waiting.has(h) <==> a.waiting.has(h) by {
        assert(b.waiting.has(h) <==> (if h == hart {
            true
        } else {
            a.waiting.has(h)
        }));
    }
}

} // verus!
