//! Tickets: who is to be woken when a deadline passes.
use vstd::prelude::*;
use crate::room::{Room, RoomView};
use crate::room::messenger::wait::site::WakeKey;

verus! {

/// The registration of one wait. No two waits share one until the counter wraps.
#[derive(Clone, Copy, Debug, PartialEq, Eq, Structural)]
pub struct Ticket(pub u64);

impl Ticket {
    /// The next ticket.
    pub fn allocate(room: &mut Room) -> (t: Ticket)
        requires
            old(room).wf(),
        ensures
            final(room).wf(),
            t.0 == old(room)@.next_ticket,
            final(room)@ == (RoomView {
                next_ticket: old(room)@.next_ticket.wrapping_add(1),
                ..old(room)@
            }),
    {
        let t: Ticket = Ticket(room.next_ticket);
        room.next_ticket = room.next_ticket.wrapping_add(1);
        proof {
            lemma_same_floor(*old(room), *room);
            assert(room@ =~= (RoomView {
                next_ticket: old(room)@.next_ticket.wrapping_add(1),
                ..old(room)@
            }));
        }
        t
    }

    /// The ticket's number, under which the clock knows it.
    pub fn raw(self) -> (n: u64)
        ensures
            n == self.0,
    {
        self.0
    }
}

/// Rooms with the same containers are well-formed together, where no life has ended and each
/// deadline in the clock has its registration.
pub proof fn lemma_same_floor(a: Room, b: Room)
    requires
        a.wf(),
        b.sites == a.sites,
        b.lanes == a.lanes,
        b.tasks == a.tasks,
        b.husks == a.husks,
        b.score.waiting == a.score.waiting,
        b.reasons@.len() == a.reasons@.len(),
        b.doomed@.dom().finite(),
        b.pending == b.doomed@.dom().len(),
        a.lives@.dom().subset_of(b.lives@.dom()),
        forall|t: u64| #[trigger]
            b.clock@.contains_key(t) ==> b.holders@.contains_key(t),
    ensures
        b.wf(),
{
    assert forall|id: usize| #[trigger] b.tasks@.contains_key(id) implies b.homed(id) by {
        assert(a.homed(id));
    }
    assert forall|h: int| #[trigger] b.score.waits(h) implies 0 <= h < b.lanes@.len() by {
        assert(a.score.waits(h));
    }
    assert forall|k: WakeKey| #[trigger]
        b.sites@.contains_key(k) implies b.sites@[k].chain.order().len() == 0
        || b.lives@.contains_key(b.sites@[k].life) by {
        assert(a.sites@.contains_key(k));
        assert(a.lives@.dom().contains(a.sites@[k].life) ==> b.lives@.dom().contains(
            a.sites@[k].life,
        ));
    }
}

/// Makes room for one registration. `false` where the allocator has none.
pub fn make_room(room: &mut Room) -> (ok: bool)
    requires
        old(room).wf(),
    ensures
        final(room).wf(),
        final(room)@ == old(room)@,
        final(room).lanes == old(room).lanes,
{
    let ok: bool = room.holders.try_reserve();
    proof {
        lemma_same_floor(*old(room), *room);
        assert(room@ =~= old(room)@);
    }
    ok
}

/// Records that the task `id` waits for `key` under `ticket`. This comes before the clock
/// takes the deadline, so that a deadline that passes finds its registration.
pub fn hold(room: &mut Room, ticket: Ticket, key: WakeKey, id: usize)
    requires
        old(room).wf(),
    ensures
        final(room).wf(),
        final(room)@ == (RoomView {
            holders: old(room)@.holders.insert(ticket.0, (key, id)),
            ..old(room)@
        }),
{
    room.holders.insert(ticket.raw(), (key, id));
    proof {
        lemma_same_floor(*old(room), *room);
        assert(room@ =~= (RoomView {
            holders: old(room)@.holders.insert(ticket.0, (key, id)),
            ..old(room)@
        }));
    }
}

/// Makes room in the clock for one deadline. `false` where the allocator has none.
pub fn make_clock_room(room: &mut Room) -> (ok: bool)
    requires
        old(room).wf(),
    ensures
        final(room).wf(),
        final(room)@ == old(room)@,
        final(room).lanes == old(room).lanes,
{
    let ok: bool = room.clock.try_reserve();
    proof {
        lemma_same_floor(*old(room), *room);
        assert(room@ =~= old(room)@);
    }
    ok
}

/// Gives the clock the deadline `at` of a registered ticket.
pub fn arm(room: &mut Room, ticket: Ticket, at: u64)
    requires
        old(room).wf(),
        old(room)@.holders.contains_key(ticket.0),
    ensures
        final(room).wf(),
        final(room)@ == (RoomView {
            clock: old(room)@.clock.insert(ticket.0, at),
            ..old(room)@
        }),
{
    room.clock.insert(ticket.raw(), at);
    proof {
        lemma_same_floor(*old(room), *room);
        assert(room@ =~= (RoomView {
            clock: old(room)@.clock.insert(ticket.0, at),
            ..old(room)@
        }));
    }
}

/// The room without the registration under `ticket`, of which the clock knows nothing any
/// more.
pub open spec fn voided(v: RoomView, ticket: u64) -> RoomView {
    RoomView { holders: v.holders.remove(ticket), clock: v.clock.remove(ticket), ..v }
}

/// Whom the registration under `ticket` names: `None` where there is none, or where
/// the task it names has been cleared away.
pub open spec fn holder_of(v: RoomView, ticket: u64) -> Option<(WakeKey, usize)> {
    if v.holders.contains_key(ticket) && v.tasks.contains_key(v.holders[ticket].1)
        && !v.tasks[v.holders[ticket].1].buried {
        Some(v.holders[ticket])
    } else {
        None
    }
}

/// Takes the registration under `ticket` away, and its deadline out of the clock, and says
/// whom it named.
pub fn void(room: &mut Room, ticket: Ticket) -> (who: Option<(WakeKey, usize)>)
    requires
        old(room).wf(),
    ensures
        final(room).wf(),
        final(room)@ == voided(old(room)@, ticket.0),
        who == holder_of(old(room)@, ticket.0),
{
    room.clock.remove(ticket.raw());
    let gone: Option<(WakeKey, usize)> = room.holders.remove(ticket.raw());
    proof {
        lemma_same_floor(*old(room), *room);
        assert(room@ =~= voided(old(room)@, ticket.0));
    }
    match gone {
        None => None,
        Some((key, id)) => match room.tasks.get(id) {
            None => None,
            Some(t) => {
                if t.buried {
                    None
                } else {
                    Some((key, id))
                }
            },
        },
    }
}

} // verus!
