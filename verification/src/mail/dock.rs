//! Docks: memory that many senders share with one receiver. Senders stand on piers, the
//! receiver on the quay.
//!
//! The kernel lays the memory out, maps it, and keeps its state: [`DockState::Live`] while it
//! is in use, [`DockState::Hang`] once the last pier has gone with the quay empty,
//! [`DockState::Dead`] once the quay was left. The users' library alone goes from hanging to
//! [`DockState::Gone`], when nothing is left to receive.
use vstd::prelude::*;
use crate::mail::MailHolds;
use crate::mail::ring::power_of_two;
use crate::mail::ring::is_shape;
use crate::table::Table;
use crate::task::MapError;

verus! {

/// How a dock stands.
#[derive(Clone, Copy, Debug, PartialEq, Eq, Structural)]
pub enum DockState {
    /// Open for letters. A dock that was just opened has a pier and somebody on the quay; it
    /// stays open as long as somebody stands there, even while there is no pier.
    Live,
    /// The last pier has gone from a live dock on whose quay nobody stood: what is in it can
    /// still be taken out by who joins as the receiver.
    Hang,
    /// Hung and emptied. The users' library says so; the kernel never does.
    Gone,
    /// The quay was left.
    Dead,
}

/// The numbers that the kernel and the users' library agree on for docks.
#[derive(Clone, Copy, Debug, PartialEq, Eq, Structural)]
pub struct DockAbi {
    pub live: u8,
    pub hang: u8,
    pub gone: u8,
    pub dead: u8,
    pub err_dead: isize,
    pub err_busy: isize,
    /// Where the items start.
    pub off_buffer: usize,
}

/// The side of a sender.
pub const PIER: usize = 0;

/// The side of the receiver.
pub const QUAY: usize = 1;

impl DockState {
    /// The number that stands for the state.
    pub fn code(self, abi: &DockAbi) -> (c: u8)
        ensures
            c == (match self {
                DockState::Live => abi.live,
                DockState::Hang => abi.hang,
                DockState::Gone => abi.gone,
                DockState::Dead => abi.dead,
            }),
    {
        match self {
            DockState::Live => abi.live,
            DockState::Hang => abi.hang,
            DockState::Gone => abi.gone,
            DockState::Dead => abi.dead,
        }
    }
}

/// Why a dock was refused.
#[derive(Clone, Copy, Debug, PartialEq, Eq, Structural)]
pub enum DockError {
    /// The dock is gone, or there was none.
    Dead,
    /// Somebody stands on the quay already.
    Busy,
}

impl DockError {
    /// The number that a user sees for the error.
    pub fn code(self, abi: &DockAbi) -> (c: isize)
        ensures
            c == (match self {
                DockError::Dead => abi.err_dead,
                DockError::Busy => abi.err_busy,
            }),
    {
        match self {
            DockError::Dead => abi.err_dead,
            DockError::Busy => abi.err_busy,
        }
    }
}

/// The fields of the shared memory that the kernel reads and writes.
#[derive(Clone, Copy, Debug, PartialEq, Eq, Structural)]
pub struct DockShared {
    pub state: DockState,
    /// How many piers there are; a bundle has one of them.
    pub pier_count: usize,
    /// Whether somebody stands on the quay.
    pub quay: bool,
    pub item_len: usize,
    pub slots: usize,
}

/// The fields after a pier has gone: with none to go the count stays at nought.
pub open spec fn pier_left(s: DockShared) -> DockShared {
    DockShared {
        pier_count: if s.pier_count == 0 {
            0
        } else {
            (s.pier_count - 1) as usize
        },
        state: if s.pier_count <= 1 && !s.quay && s.state is Live {
            DockState::Hang
        } else {
            s.state
        },
        ..s
    }
}

/// The fields after the quay was left.
pub open spec fn quay_left(s: DockShared) -> DockShared {
    DockShared {
        quay: false,
        state: if s.state is Live || s.state is Hang {
            DockState::Dead
        } else {
            s.state
        },
        ..s
    }
}

impl DockShared {
    /// The fields of a dock that was just opened: who opened it stands on the quay and on a pier.
    pub fn init_layout(item_len: usize, slots: usize) -> (s: DockShared)
        ensures
            s == (DockShared {
                state: DockState::Live,
                pier_count: 1,
                quay: true,
                item_len,
                slots,
            }),
    {
        DockShared { state: DockState::Live, pier_count: 1, quay: true, item_len, slots }
    }

    /// A pier goes; gives how many are left.
    pub fn dec_pier(&mut self) -> (n: usize)
        ensures
            *final(self) == pier_left(*old(self)),
            n == pier_left(*old(self)).pier_count,
    {
        let count: usize = self.pier_count;
        let n: usize = if count == 0 {
            0
        } else {
            count - 1
        };
        self.pier_count = n;
        if n == 0 && !self.quay {
            match self.state {
                DockState::Live => {
                    self.state = DockState::Hang;
                },
                _ => {},
            }
        }
        n
    }

    /// The quay is left: the dock is dead.
    pub fn clear_quay(&mut self)
        ensures
            *final(self) == quay_left(*old(self)),
    {
        self.quay = false;
        match self.state {
            DockState::Live => {
                self.state = DockState::Dead;
            },
            DockState::Hang => {
                self.state = DockState::Dead;
            },
            _ => {},
        }
    }
}

/// A dock.
#[derive(Clone, Copy, Debug, PartialEq, Eq, Structural)]
pub struct DockMeta {
    pub id: usize,
    pub shared: DockShared,
    /// How many hold it.
    pub holders: usize,
}

/// A task's hold on a dock: both sides, as the task that opened it has, or one.
#[derive(Clone, Copy, Debug, PartialEq, Eq, Structural)]
pub enum Dock {
    Bundle { dock: usize },
    Pier { dock: usize },
    Quay { dock: usize },
}

impl Dock {
    /// The dock's number.
    pub open spec fn number(self) -> usize {
        match self {
            Dock::Bundle { dock } => dock,
            Dock::Pier { dock } => dock,
            Dock::Quay { dock } => dock,
        }
    }

    /// Computes [`Dock::number`].
    pub fn id(&self) -> (id: usize)
        ensures
            id == self.number(),
    {
        match self {
            Dock::Bundle { dock } => *dock,
            Dock::Pier { dock } => *dock,
            Dock::Quay { dock } => *dock,
        }
    }
}

/// All docks.
pub struct Docks {
    pub metas: Table<usize, DockMeta>,
    pub next: usize,
}

impl Docks {
    /// Whether numbers from the next one on are unused.
    pub open spec fn wf(self) -> bool {
        forall|id: usize| #[trigger] self.metas@.contains_key(id) ==> id < self.next
    }

    /// No docks.
    pub fn new() -> (d: Docks)
        ensures
            d.wf(),
            d.metas@ == Map::<usize, DockMeta>::empty(),
            d.next == 1,
    {
        Docks { metas: Table::new(), next: 1 }
    }
}

/// A dock that was just opened.
pub open spec fn fresh_dock(id: usize, item_len: usize, slots: usize, holders: usize) -> DockMeta {
    DockMeta {
        id,
        shared: DockShared {
            state: DockState::Live,
            pier_count: 1,
            quay: true,
            item_len,
            slots,
        },
        holders,
    }
}

/// Opens a dock for the task that runs, which stands on both sides. `memory` is what the
/// allocator said to the size that [`crate::mail::ring::measure`] gives, `view` where the
/// memory was mapped. A dock that cannot be mapped has had its number and is dead.
pub fn open(
    docks: &mut Docks,
    holds: &mut MailHolds,
    item_len: usize,
    slots: usize,
    memory: Result<(), MapError>,
    view: Result<usize, MapError>,
) -> (r: Result<(usize, usize), MapError>)
    requires
        old(docks).wf(),
        old(docks).next < usize::MAX,
    ensures
        final(docks).wf(),
        ({
            let id = old(docks).next;
            if !is_shape(item_len, slots) {
                &&& r == Err::<(usize, usize), MapError>(MapError::NotAligned)
                &&& *final(docks) == *old(docks) && *final(holds) == *old(holds)
            } else if let Err(e) = memory {
                &&& r == Err::<(usize, usize), MapError>(e)
                &&& *final(docks) == *old(docks) && *final(holds) == *old(holds)
            } else {
                &&& final(docks).next == id + 1
                &&& final(docks).metas@ == old(docks).metas@.insert(
                    id,
                    fresh_dock(
                        id,
                        item_len,
                        slots,
                        if view is Ok {
                            1
                        } else {
                            0
                        },
                    ),
                )
                &&& match view {
                    Ok(va) => {
                        &&& r == Ok::<(usize, usize), MapError>((id, va))
                        &&& final(holds).docks@ == old(holds).docks@.push(Dock::Bundle { dock: id })
                        &&& *final(holds) == (MailHolds {
                            docks: final(holds).docks,
                            ..*old(holds)
                        })
                    },
                    Err(e) => r == Err::<(usize, usize), MapError>(e) && *final(holds) == *old(
                        holds,
                    ),
                }
            }
        }),
{
    if item_len == 0 || slots == 0 || !power_of_two(slots) {
        return Err(MapError::NotAligned);
    }
    if let Err(e) = memory {
        return Err(e);
    }
    let shared: DockShared = DockShared::init_layout(item_len, slots);
    let id: usize = docks.next;
    docks.next = id + 1;
    match view {
        Err(e) => {
            docks.metas.insert(id, DockMeta { id, shared, holders: 0 });
            Err(e)
        },
        Ok(va) => {
            docks.metas.insert(id, DockMeta { id, shared, holders: 1 });
            holds.docks.push(Dock::Bundle { dock: id });
            Ok((id, va))
        },
    }
}

/// Whether somebody holds the dock `id`.
pub open spec fn is_held(docks: Docks, id: usize) -> bool {
    docks.metas@.contains_key(id) && docks.metas@[id].holders > 0
}

/// Why the dock cannot be joined on `side`.
pub open spec fn objection(
    docks: Docks,
    id: usize,
    side: usize,
    view: Result<usize, MapError>,
) -> Option<DockError> {
    if !is_held(docks, id) {
        Some(DockError::Dead)
    } else if side == QUAY && docks.metas@[id].shared.quay {
        Some(DockError::Busy)
    } else if view is Err || (side != PIER && side != QUAY) {
        Some(DockError::Dead)
    } else {
        None
    }
}

/// The dock after an attempt to join it on `side`: who found the quay free has taken it, even
/// where the memory could not be mapped then, and who joined as a sender is one pier more.
pub open spec fn approached(meta: DockMeta, side: usize, joined: bool) -> DockMeta {
    DockMeta {
        shared: DockShared {
            quay: meta.shared.quay || side == QUAY,
            pier_count: if joined && side == PIER {
                (meta.shared.pier_count + 1) as usize
            } else {
                meta.shared.pier_count
            },
            ..meta.shared
        },
        holders: if joined {
            (meta.holders + 1) as usize
        } else {
            meta.holders
        },
        ..meta
    }
}

/// Joins the dock `id` as a sender or as the receiver, of whom there is one; gives where its
/// memory was mapped.
pub fn join(
    docks: &mut Docks,
    holds: &mut MailHolds,
    id: usize,
    side: usize,
    view: Result<usize, MapError>,
) -> (r: Result<usize, DockError>)
    requires
        old(docks).wf(),
        old(docks).metas@.contains_key(id) ==> old(docks).metas@[id].holders < usize::MAX && old(
            docks,
        ).metas@[id].shared.pier_count < usize::MAX,
    ensures
        final(docks).wf(),
        final(docks).next == old(docks).next,
        match objection(*old(docks), id, side, view) {
            Some(e) => r == Err::<usize, DockError>(e) && *final(holds) == *old(holds),
            None => {
                &&& r is Ok
                &&& view == Ok::<usize, MapError>(r->Ok_0)
                &&& final(holds).docks@ == old(holds).docks@.push(
                    if side == PIER {
                        Dock::Pier { dock: id }
                    } else {
                        Dock::Quay { dock: id }
                    },
                )
                &&& *final(holds) == (MailHolds { docks: final(holds).docks, ..*old(holds) })
            },
        },
        final(docks).metas@ == (if is_held(*old(docks), id) {
            old(docks).metas@.insert(id, approached(old(docks).metas@[id], side, r is Ok))
        } else {
            old(docks).metas@
        }),
{
    let held: bool = match docks.metas.get(id) {
        Some(meta) => meta.holders > 0,
        None => false,
    };
    if !held {
        return Err(DockError::Dead);
    }
    let ghost before = *docks;
    let ghost was = before.metas@[id];
    if side == QUAY {
        let meta: &mut DockMeta = docks.metas.get_mut(id).unwrap();
        if meta.shared.quay {
            assert(approached(was, side, false) == was);
            assert(docks.metas@ =~= before.metas@.insert(id, was));
            return Err(DockError::Busy);
        }
        meta.shared.quay = true;
    }
    assert(docks.metas@ =~= before.metas@.insert(id, approached(was, side, false)));
    assert(docks.wf()) by {
        assert forall|k: usize| #[trigger] docks.metas@.contains_key(k) implies k < docks.next by {
            assert(before.metas@.contains_key(k));
        }
    }
    let va: usize = match view {
        Err(_) => {
            return Err(DockError::Dead);
        },
        Ok(va) => va,
    };
    let hold: Dock = if side == PIER {
        Dock::Pier { dock: id }
    } else if side == QUAY {
        Dock::Quay { dock: id }
    } else {
        return Err(DockError::Dead);
    };
    let meta: &mut DockMeta = docks.metas.get_mut(id).unwrap();
    if side == PIER {
        meta.shared.pier_count = meta.shared.pier_count + 1;
    }
    meta.holders = meta.holders + 1;
    holds.docks.push(hold);
    assert(docks.metas@ =~= before.metas@.insert(id, approached(was, side, true)));
    Ok(va)
}

/// The first place at which `list` has the dock `id`, from `from` on.
pub open spec fn place_of(list: Seq<Dock>, id: usize, from: int) -> Option<int>
    decreases list.len() - from,
{
    if from >= list.len() {
        None
    } else if list[from].number() == id {
        Some(from)
    } else {
        place_of(list, id, from + 1)
    }
}

fn find(list: &Vec<Dock>, id: usize) -> (at: Option<usize>)
    ensures
        at is None <==> place_of(list@, id, 0) is None,
        at matches Some(i) ==> place_of(list@, id, 0) == Some(i as int) && i < list@.len(),
{
    let mut i: usize = 0;
    while i < list.len()
        invariant
            i <= list@.len(),
            place_of(list@, id, 0) == place_of(list@, id, i as int),
        decreases list@.len() - i,
    {
        if list[i].id() == id {
            return Some(i);
        }
        i += 1;
    }
    None
}

/// The dock after `hold` was let go: a pier goes, or the quay is left, or both.
pub open spec fn released(meta: DockMeta, hold: Dock) -> DockMeta {
    DockMeta {
        shared: match hold {
            Dock::Bundle { .. } => quay_left(pier_left(meta.shared)),
            Dock::Pier { .. } => pier_left(meta.shared),
            Dock::Quay { .. } => quay_left(meta.shared),
        },
        holders: (meta.holders - 1) as usize,
        ..meta
    }
}

/// The task that runs lets go of the dock `id`; `false` where no task runs or it does not hold
/// the dock.
pub fn shut(docks: &mut Docks, running: bool, holds: &mut MailHolds, id: usize) -> (done: bool)
    requires
        old(docks).wf(),
        running && place_of(old(holds).docks@, id, 0) is Some ==> is_held(*old(docks), id),
    ensures
        final(docks).wf(),
        done == (running && place_of(old(holds).docks@, id, 0) is Some),
        !done ==> *final(docks) == *old(docks) && *final(holds) == *old(holds),
        done ==> {
            let at = place_of(old(holds).docks@, id, 0)->0;
            &&& final(holds).docks@ == old(holds).docks@.remove(at)
            &&& *final(holds) == (MailHolds { docks: final(holds).docks, ..*old(holds) })
            &&& final(docks).metas@ == old(docks).metas@.insert(
                id,
                released(old(docks).metas@[id], old(holds).docks@[at]),
            )
            &&& final(docks).next == old(docks).next
        },
{
    if !running {
        return false;
    }
    match find(&holds.docks, id) {
        None => false,
        Some(at) => {
            let hold: Dock = holds.docks.remove(at);
            let ghost before = *docks;
            let meta: &mut DockMeta = docks.metas.get_mut(id).unwrap();
            match hold {
                Dock::Bundle { .. } => {
                    meta.shared.dec_pier();
                    meta.shared.clear_quay();
                },
                Dock::Pier { .. } => {
                    meta.shared.dec_pier();
                },
                Dock::Quay { .. } => {
                    meta.shared.clear_quay();
                },
            }
            meta.holders = meta.holders - 1;
            assert(docks.wf()) by {
                assert forall|k: usize| #[trigger] docks.metas@.contains_key(k) implies k
                    < docks.next by {
                    assert(before.metas@.contains_key(k));
                }
            }
            true
        },
    }
}

/// There is one receiver: who joins a held dock as the receiver keeps everybody else off the
/// quay until the quay is left.
pub proof fn law_one_receiver(
    docks: Docks,
    after: Docks,
    id: usize,
    view: Result<usize, MapError>,
    other: Result<usize, MapError>,
)
    requires
        objection(docks, id, QUAY, view) is None,
        docks.metas@[id].holders < usize::MAX,
        after.metas@ == docks.metas@.insert(id, approached(docks.metas@[id], QUAY, true)),
    ensures
        objection(after, id, QUAY, other) == Some(DockError::Busy),
        objection(after, id, PIER, view) is None,
{
}

/// Every pier is counted: who joins as a sender and leaves again has changed nothing of the
/// count, and the last pier to go leaves none.
pub proof fn law_piers_are_counted(meta: DockMeta, id: usize)
    requires
        meta.shared.pier_count < usize::MAX,
        meta.holders < usize::MAX,
    ensures
        approached(meta, PIER, true).shared.pier_count == meta.shared.pier_count + 1,
        released(approached(meta, PIER, true), Dock::Pier { dock: id }).shared.pier_count
            == meta.shared.pier_count,
        fresh_dock(id, meta.shared.item_len, meta.shared.slots, 1).shared.pier_count == 1,
        pier_left(pier_left(fresh_dock(id, meta.shared.item_len, meta.shared.slots, 1).shared))
            .pier_count == 0,
{
}

/// Once the quay was left a dock does not live again: it is dead, or gone if it was.
pub proof fn law_left_quay_is_final(s: DockShared)
    ensures
        !quay_left(s).quay,
        quay_left(s).state is Dead || quay_left(s).state is Gone,
        pier_left(quay_left(s)).state == quay_left(s).state,
        quay_left(quay_left(s)) == quay_left(s),
{
}

} // verus!
