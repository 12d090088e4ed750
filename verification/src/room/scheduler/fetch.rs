//! What a hart does that has nothing to run.
//!
//! It looks into its queue, marks itself as waiting, and sleeps until something happens.
//! The host performs each [`Step`] and comes back with what woke the hart.
use vstd::prelude::*;
use crate::room::{Room, RoomView};
use crate::room::conductor;
use crate::room::conductor::{is_done, same_counts};
use crate::room::messenger::wait::clock::batch_of;
use crate::room::messenger::wait::redeem;
use crate::room::messenger::wait::{claims, risen_all};

verus! {

/// Ticks to sleep where nothing is due: as good as forever.
pub const WFI_FAR: u64 = 0x1000_0000_0000_0000;

/// Ticks to sleep while the machine goes down, so that the beacon gets to speak.
pub const BEACON_TICK: u64 = 250_000;

/// What the hart does next.
#[derive(Clone, Copy, Debug, PartialEq, Eq, Structural)]
pub enum Step {
    /// Resume this frame.
    Run(usize),
    /// Go to the halt.
    Halt,
    /// Sleep for this many ticks, or until the next deadline if that is sooner, or until
    /// an interrupt comes.
    Sleep(u64),
}

/// The room after hart `h` has taken its first ready task and runs it.
pub open spec fn taken_up(v: RoomView, h: int) -> RoomView {
    v.pulled(h).seated(h, v.lanes[h].queue[0])
}

/// Whether `w` is `v` but for the waiting mark of hart `me`, which is `mark` in `w`.
pub open spec fn marked(v: RoomView, w: RoomView, me: usize, mark: bool) -> bool {
    &&& w == (RoomView { score: w.score, ..v })
    &&& same_counts(w.score, v.score)
    &&& w.score.cursor == v.score.cursor
    &&& forall|h: int| #[trigger]
        w.score.waits(h) <==> (if h == me {
            mark
        } else {
            v.score.waits(h)
        })
}

/// How long a hart sleeps.
pub open spec fn nap(ending: bool) -> u64 {
    if ending {
        BEACON_TICK
    } else {
        WFI_FAR
    }
}

fn set_mark(room: &mut Room, me: usize, mark: bool)
    requires
        old(room).wf(),
        me < old(room).lanes@.len(),
    ensures
        final(room).wf(),
        marked(old(room)@, final(room)@, me, mark),
        final(room).lanes@.len() == old(room).lanes@.len(),
{
    if mark {
        conductor::sleep(&mut room.score, me);
    } else {
        conductor::wake(&mut room.score, me);
    }
    proof {
        assert forall|id: usize| #[trigger] room.tasks@.contains_key(id) implies room.homed(
            id,
        ) by {
            assert(old(room).homed(id));
        }
        assert forall|h: int| #[trigger] room.score.waits(h) implies 0 <= h < room.lanes@.len() by {
            if h != me {
                assert(old(room).score.waits(h));
            }
        }
        assert(room@ =~= (RoomView { score: room@.score, ..old(room)@ }));
    }
}

/// Hart `me` has an empty slot: it runs its first ready task. Without one it goes to the
/// halt if every task is gone, and sleeps otherwise, marked as waiting. `ending` says
/// whether the machine goes down.
pub fn fetch(room: &mut Room, me: usize, ending: bool) -> (step: Step)
    requires
        old(room).wf(),
        me < old(room).lanes@.len(),
        old(room)@.lanes[me as int].running is None,
    ensures
        final(room).wf(),
        ({
            let v = old(room)@;
            let q = v.lanes[me as int].queue;
            if q.len() > 0 {
                step == Step::Run(v.tasks[q[0]].ident.frame) && final(room)@ == taken_up(
                    v,
                    me as int,
                )
            } else if is_done(v.score) {
                step == Step::Halt && final(room)@ == v
            } else {
                step == Step::Sleep(nap(ending)) && marked(v, final(room)@, me, true)
            }
        }),
{
    if let Some(id) = room.pull(me) {
        assert(room@.lanes.len() == room.lanes@.len());
        let pa: usize = room.seat(me, id);
        return Step::Run(pa);
    }
    if conductor::done(&room.score) {
        return Step::Halt;
    }
    assert(room@.lanes.len() == room.lanes@.len());
    set_mark(room, me, true);
    if ending {
        Step::Sleep(BEACON_TICK)
    } else {
        Step::Sleep(WFI_FAR)
    }
}

/// The room after the deadlines of `due` have passed, as [`redeem`] leaves it.
pub open spec fn redeemed(v: RoomView, me: usize, due: Seq<u64>) -> RoomView {
    risen_all(claims(v, due).0, me, claims(v, due).1)
}

/// Hart `me` was woken at `now`: the deadlines that have passed are redeemed, as [`redeem`]
/// does it. Where that made
/// somebody ready, the hart takes its mark away and fetches anew. Otherwise it looks into
/// its queue once more before it sleeps again, and at the halt.
pub fn rouse(room: &mut Room, me: usize, now: u64, ending: bool) -> (step: Step)
    requires
        old(room).wf(),
        me < old(room).lanes@.len(),
        old(room)@.lanes[me as int].running is None,
    ensures
        final(room).wf(),
        ({
            let due = batch_of(old(room)@.clock, now);
            let v = redeemed(old(room)@, me, due);
            let q = v.lanes[me as int].queue;
            let any = claims(old(room)@, due).1.len() > 0;
            if q.len() > 0 {
                &&& step == Step::Run(v.tasks[q[0]].ident.frame)
                &&& exists|w: RoomView| #[trigger]
                    marked(v, w, me, false) && final(room)@ == taken_up(w, me as int)
            } else if is_done(v.score) {
                step == Step::Halt && marked(v, final(room)@, me, false)
            } else {
                &&& step == Step::Sleep(nap(ending))
                &&& any ==> exists|w: RoomView| #[trigger]
                    marked(v, w, me, false) && marked(w, final(room)@, me, true)
                &&& !any ==> final(room)@ == v
            }
        }),
{
    let any: bool = redeem(room, me, now);
    let ghost v = room@;
    assert(v.lanes.len() == room.lanes@.len());
    if any {
        set_mark(room, me, false);
        let ghost w = room@;
        assert(marked(v, w, me, false));
        assert(w.lanes == v.lanes && w.tasks == v.tasks);
        assert(is_done(w.score) == is_done(v.score));
        return fetch(room, me, ending);
    }
    if let Some(id) = room.pull(me) {
        assert(room@.lanes.len() == room.lanes@.len());
        set_mark(room, me, false);
        let ghost m = room@;
        let pa: usize = room.seat(me, id);
        proof {
            let w = RoomView { score: m.score, ..v };
            assert(marked(v, w, me, false));
            assert(m =~= w.pulled(me as int));
            assert(room@ =~= taken_up(w, me as int));
        }
        return Step::Run(pa);
    }
    if conductor::done(&room.score) {
        assert(room@.lanes.len() == room.lanes@.len());
        set_mark(room, me, false);
        return Step::Halt;
    }
    if ending {
        Step::Sleep(BEACON_TICK)
    } else {
        Step::Sleep(WFI_FAR)
    }
}

} // verus!
