//! The badge of a hart: who runs on it, or who did last.
//!
//! While a task runs, the badge is live and its trap frame can be trusted. When the
//! task leaves and none follows, two numbers are all that stays: they are packed into
//! one word, so leaving needs no memory and keeps nothing alive.
use vstd::prelude::*;
use crate::unit::task::TaskIdent;

verus! {

/// The task that ran last on a hart, and its team.
#[derive(Clone, Copy, Debug, PartialEq, Eq, Structural)]
pub struct LastIdent {
    pub task: u64,
    pub team: u64,
}

/// The mask of the bits that a team's number has in a packed word.
pub const TEAM_MASK: u64 = 0x7FFF_FFFF;

impl LastIdent {
    /// The packed word: a set lowest bit, the team's number from bit 1 on, the task's
    /// number from bit 32 on.
    pub open spec fn packed(self) -> u64 {
        1u64 | (self.team << 1u64) | (self.task << 32u64)
    }

    /// Whether `raw` is the packed form of a last identity.
    pub open spec fn is_tagged(raw: u64) -> bool {
        raw & 1 != 0
    }

    /// The identity that the word `raw` stands for.
    pub open spec fn unpacked(raw: u64) -> LastIdent {
        LastIdent { task: raw >> 32u64, team: (raw >> 1u64) & TEAM_MASK }
    }

    /// Computes [`LastIdent::is_tagged`].
    pub fn tagged(raw: u64) -> (yes: bool)
        ensures
            yes == Self::is_tagged(raw),
    {
        raw & 1 != 0
    }

    /// Computes [`LastIdent::packed`].
    pub fn pack(self) -> (raw: u64)
        ensures
            raw == self.packed(),
    {
        1u64 | (self.team << 1u64) | (self.task << 32u64)
    }

    /// Computes [`LastIdent::unpacked`].
    pub fn unpack(raw: u64) -> (l: LastIdent)
        ensures
            l == Self::unpacked(raw),
    {
        LastIdent { task: raw >> 32u64, team: (raw >> 1u64) & TEAM_MASK }
    }
}

/// A last identity comes back out of its packed word as it went in. A team has fewer
/// than 2^31 numbers and a task fewer than 2^32: more of either would not fit into
/// memory.
pub proof fn law_pack_round_trip(l: LastIdent)
    requires
        l.team < 0x8000_0000,
        l.task < 0x1_0000_0000,
    ensures
        LastIdent::unpacked(l.packed()) == l,
        LastIdent::is_tagged(l.packed()),
        payload_of(l.packed()) == Payload::Last(l),
{
    let team = l.team;
    let task = l.task;
    assert((1u64 | (team << 1u64) | (task << 32u64)) >> 32u64 == task) by (bit_vector)
        requires
            team < 0x8000_0000,
            task < 0x1_0000_0000,
    ;
    assert(((1u64 | (team << 1u64) | (task << 32u64)) >> 1u64) & 0x7FFF_FFFF == team)
        by (bit_vector)
        requires
            team < 0x8000_0000,
            task < 0x1_0000_0000,
    ;
    law_packed_is_tagged(l);
}

/// A packed word is never taken for an empty slot or a live one.
pub proof fn law_packed_is_tagged(l: LastIdent)
    ensures
        LastIdent::is_tagged(l.packed()),
        payload_of(l.packed()) is Last,
{
    let team = l.team;
    let task = l.task;
    assert((1u64 | (team << 1u64) | (task << 32u64)) & 1 != 0) by (bit_vector);
    assert(0u64 & 1 == 0) by (bit_vector);
}

/// The three meanings of an identity word.
#[derive(Clone, Copy, Debug, PartialEq, Eq, Structural)]
pub enum Payload {
    /// Nobody has run yet.
    Empty,
    /// The address of the identity of the running task.
    Live(u64),
    /// The last task and its team.
    Last(LastIdent),
}

/// What the word `raw` means: zero is empty, a set lowest bit is a last identity,
/// anything else an address.
pub open spec fn payload_of(raw: u64) -> Payload {
    if raw == 0 {
        Payload::Empty
    } else if LastIdent::is_tagged(raw) {
        Payload::Last(LastIdent::unpacked(raw))
    } else {
        Payload::Live(raw)
    }
}

impl Payload {
    /// Computes [`payload_of`].
    pub fn of(raw: u64) -> (p: Payload)
        ensures
            p == payload_of(raw),
    {
        if raw == 0 {
            Payload::Empty
        } else if LastIdent::tagged(raw) {
            Payload::Last(LastIdent::unpack(raw))
        } else {
            Payload::Live(raw)
        }
    }
}

/// Who a hart works for.
#[derive(Clone, Copy, Debug, PartialEq, Eq, Structural)]
pub enum Identity {
    /// The task that runs: its trap frame can be trusted.
    Live(TaskIdent),
    /// The task that ran last.
    Last(LastIdent),
}

impl Identity {
    /// The task's number.
    pub fn task_id(&self) -> (id: u64)
        ensures
            id == (match self {
                Identity::Live(t) => t.id as u64,
                Identity::Last(l) => l.task,
            }),
    {
        match self {
            Identity::Live(t) => t.id as u64,
            Identity::Last(l) => l.task,
        }
    }

    /// The team's number.
    pub fn team_id(&self) -> (id: u64)
        ensures
            id == (match self {
                Identity::Live(t) => t.team as u64,
                Identity::Last(l) => l.team,
            }),
    {
        match self {
            Identity::Live(t) => t.team as u64,
            Identity::Last(l) => l.team,
        }
    }

    /// The trap frame, which only a running task has.
    pub fn trap(&self) -> (pa: Option<usize>)
        ensures
            pa == (match self {
                Identity::Live(t) => Some(t.frame),
                Identity::Last(_) => None,
            }),
    {
        match self {
            Identity::Live(t) => Some(t.frame),
            Identity::Last(_) => None,
        }
    }

    /// The identity of the running task.
    pub fn live(&self) -> (t: Option<&TaskIdent>)
        ensures
            t == (match self {
                Identity::Live(t) => Some(t),
                Identity::Last(_) => None,
            }),
    {
        match self {
            Identity::Live(t) => Some(t),
            Identity::Last(_) => None,
        }
    }
}

/// The identity slot of a hart.
#[derive(Clone, Copy, Debug, PartialEq, Eq, Structural)]
pub enum Badge {
    /// Nobody has run yet. Once left, this is never reached again.
    Blank,
    /// The running task.
    Live(TaskIdent),
    /// The packed word of the task that ran last.
    Last(u64),
}

impl Badge {
    /// The badge after `ident` has left with none to follow.
    pub open spec fn left_by(ident: TaskIdent) -> Badge {
        Badge::Last((LastIdent { task: ident.id as u64, team: ident.team as u64 }).packed())
    }

    /// Who the badge shows.
    pub open spec fn shown(self) -> Option<Identity> {
        match self {
            Badge::Blank => None,
            Badge::Live(t) => Some(Identity::Live(t)),
            Badge::Last(raw) => Some(Identity::Last(LastIdent::unpacked(raw))),
        }
    }

    /// A blank badge.
    pub fn new() -> (b: Badge)
        ensures
            b == Badge::Blank,
    {
        Badge::Blank
    }

    /// Shows the task that runs from now on.
    pub fn seat(&mut self, ident: TaskIdent)
        ensures
            *final(self) == Badge::Live(ident),
    {
        *self = Badge::Live(ident);
    }

    /// Shows the task that has left with none to follow.
    pub fn shed(&mut self, ident: TaskIdent)
        ensures
            *final(self) == Badge::left_by(ident),
    {
        let last: LastIdent = LastIdent { task: ident.id as u64, team: ident.team as u64 };
        *self = Badge::Last(last.pack());
    }

    /// Who the badge shows; `None` where nobody has run yet.
    pub fn read(&self) -> (who: Option<Identity>)
        ensures
            who == self.shown(),
    {
        match *self {
            Badge::Blank => None,
            Badge::Live(t) => Some(Identity::Live(t)),
            Badge::Last(raw) => Some(Identity::Last(LastIdent::unpack(raw))),
        }
    }
}

/// What a badge shows after a task has left is that task, as long as its numbers fit.
pub proof fn law_shed_then_read(ident: TaskIdent)
    requires
        ident.team < 0x8000_0000,
        ident.id < 0x1_0000_0000,
    ensures
        Badge::left_by(ident).shown() == Some(
            Identity::Last(LastIdent { task: ident.id as u64, team: ident.team as u64 }),
        ),
{
    law_pack_round_trip(LastIdent { task: ident.id as u64, team: ident.team as u64 });
}

} // verus!
