//! Rings: memory that two tasks share to pass items without the kernel's help. The kernel
//! lays the memory out, maps it, and says whether the ring still lives.
use vstd::prelude::*;
use crate::mail::MailHolds;
use crate::table::Table;
use crate::task::{MapError, PAGE_SIZE};

verus! {

/// Whether a ring can be used.
#[derive(Clone, Copy, Debug, PartialEq, Eq, Structural)]
pub enum RingState {
    /// Both ends are there.
    Live,
    /// One end has gone.
    Dead,
}

/// The numbers that the kernel and the users' library agree on for rings.
#[derive(Clone, Copy, Debug, PartialEq, Eq, Structural)]
pub struct RingAbi {
    pub live: u8,
    pub dead: u8,
    pub err_dead: isize,
    /// Where the items start.
    pub off_buffer: usize,
}

impl RingState {
    /// The number that stands for the state.
    pub fn code(self, abi: &RingAbi) -> (c: u8)
        ensures
            c == (match self {
                RingState::Live => abi.live,
                RingState::Dead => abi.dead,
            }),
    {
        match self {
            RingState::Live => abi.live,
            RingState::Dead => abi.dead,
        }
    }
}

/// Why a ring was refused.
#[derive(Clone, Copy, Debug, PartialEq, Eq, Structural)]
pub enum RingError {
    /// The ring is gone, or there was none.
    Dead,
}

impl RingError {
    /// The number that a user sees for the error.
    pub fn code(self, abi: &RingAbi) -> (c: isize)
        ensures
            c == abi.err_dead,
    {
        match self {
            RingError::Dead => abi.err_dead,
        }
    }
}

/// The fields of the shared memory that the kernel writes.
#[derive(Clone, Copy, Debug, PartialEq, Eq, Structural)]
pub struct RingShared {
    pub state: RingState,
    pub item_len: usize,
    pub slots: usize,
}

impl RingShared {
    /// The fields of a ring that was just opened.
    pub fn init_layout(item_len: usize, slots: usize) -> (s: RingShared)
        ensures
            s == (RingShared { state: RingState::Live, item_len, slots }),
    {
        RingShared { state: RingState::Live, item_len, slots }
    }

    /// Says that the ring is dead.
    pub fn dead(&mut self)
        ensures
            *final(self) == (RingShared { state: RingState::Dead, ..*old(self) }),
    {
        match self.state {
            RingState::Live => {
                self.state = RingState::Dead;
            },
            RingState::Dead => {},
        }
    }
}

/// A ring.
#[derive(Clone, Copy, Debug, PartialEq, Eq, Structural)]
pub struct RingMeta {
    pub id: usize,
    pub shared: RingShared,
    /// How many hold it.
    pub holders: usize,
}

/// A task's hold on a ring.
#[derive(Clone, Copy, Debug, PartialEq, Eq, Structural)]
pub struct Ring {
    pub ring: usize,
}

impl Ring {
    /// The ring's number.
    pub fn id(&self) -> (id: usize)
        ensures
            id == self.ring,
    {
        self.ring
    }
}

/// All rings.
pub struct Rings {
    pub metas: Table<usize, RingMeta>,
    pub next: usize,
}

impl Rings {
    /// Whether numbers from the next one on are unused.
    pub open spec fn wf(self) -> bool {
        forall|id: usize| #[trigger] self.metas@.contains_key(id) ==> id < self.next
    }

    /// No rings.
    pub fn new() -> (r: Rings)
        ensures
            r.wf(),
            r.metas@ == Map::<usize, RingMeta>::empty(),
            r.next == 1,
    {
        Rings { metas: Table::new(), next: 1 }
    }
}

/// Whether `n` is a power of two.
pub open spec fn is_power(n: nat) -> bool
    decreases n,
{
    if n == 0 {
        false
    } else if n == 1 {
        true
    } else {
        n % 2 == 0 && is_power(n / 2)
    }
}

/// Computes [`is_power`].
pub fn power_of_two(n: usize) -> (yes: bool)
    ensures
        yes == is_power(n as nat),
{
    if n == 0 {
        return false;
    }
    let mut m: usize = n;
    while m > 1
        invariant
            m >= 1,
            is_power(m as nat) == is_power(n as nat),
        decreases m,
    {
        if m % 2 != 0 {
            return false;
        }
        m = m / 2;
    }
    true
}

/// Whether items of `item_len` bytes in `slots` slots make a shared memory: there are both,
/// and the slots are a power of two.
pub open spec fn is_shape(item_len: usize, slots: usize) -> bool {
    item_len != 0 && is_power(slots as nat)
}

/// How many bytes the shared memory has: whole pages.
pub open spec fn shared_bytes(off_buffer: usize, item_len: usize, slots: usize) -> int {
    (off_buffer + item_len * slots + PAGE_SIZE - 1) / PAGE_SIZE as int * PAGE_SIZE
}

/// The size of the memory to share, in whole pages; refused where the shape is not one.
pub fn measure(off_buffer: usize, item_len: usize, slots: usize) -> (r: Result<usize, MapError>)
    requires
        off_buffer + item_len * slots + PAGE_SIZE - 1 <= usize::MAX,
    ensures
        r is Err <==> !is_shape(item_len, slots),
        r matches Err(e) ==> e == MapError::NotAligned,
        r matches Ok(n) ==> n == shared_bytes(off_buffer, item_len, slots),
{
    if item_len == 0 || slots == 0 || !power_of_two(slots) {
        return Err(MapError::NotAligned);
    }
    assert(item_len * slots >= 0) by (nonlinear_arith);
    let items: usize = item_len * slots;
    let bytes: usize = (off_buffer + items + (PAGE_SIZE - 1)) / PAGE_SIZE * PAGE_SIZE;
    Ok(bytes)
}

/// Opens a ring for the task that runs. `memory` is what the allocator said to the size that
/// [`measure`] gives, `view` where the memory was mapped. A ring that cannot be mapped has
/// had its number and is dead.
pub fn open(
    rings: &mut Rings,
    holds: &mut MailHolds,
    item_len: usize,
    slots: usize,
    memory: Result<(), MapError>,
    view: Result<usize, MapError>,
) -> (r: Result<(usize, usize), MapError>)
    requires
        old(rings).wf(),
        old(rings).next < usize::MAX,
    ensures
        final(rings).wf(),
        ({
            let id = old(rings).next;
            if !is_shape(item_len, slots) {
                &&& r == Err::<(usize, usize), MapError>(MapError::NotAligned)
                &&& *final(rings) == *old(rings) && *final(holds) == *old(holds)
            } else if let Err(e) = memory {
                &&& r == Err::<(usize, usize), MapError>(e)
                &&& *final(rings) == *old(rings) && *final(holds) == *old(holds)
            } else {
                &&& final(rings).next == id + 1
                &&& final(rings).metas@ == old(rings).metas@.insert(
                    id,
                    RingMeta {
                        id,
                        shared: RingShared { state: RingState::Live, item_len, slots },
                        holders: if view is Ok {
                            1
                        } else {
                            0
                        },
                    },
                )
                &&& match view {
                    Ok(va) => {
                        &&& r == Ok::<(usize, usize), MapError>((id, va))
                        &&& final(holds).rings@ == old(holds).rings@.push(Ring { ring: id })
                        &&& *final(holds) == (MailHolds {
                            rings: final(holds).rings,
                            ..*old(holds)
                        })
                    },
                    Err(e) => r == Err::<(usize, usize), MapError>(e) && *final(holds) == *old(
                        holds,
                    ),
                }
            }
        }),
{
    if item_len == 0 || slots == 0 || !power_of_two(slots) {
        return Err(MapError::NotAligned);
    }
    if let Err(e) = memory {
        return Err(e);
    }
    let shared: RingShared = RingShared::init_layout(item_len, slots);
    let id: usize = rings.next;
    rings.next = id + 1;
    match view {
        Err(e) => {
            rings.metas.insert(id, RingMeta { id, shared, holders: 0 });
            Err(e)
        },
        Ok(va) => {
            rings.metas.insert(id, RingMeta { id, shared, holders: 1 });
            holds.rings.push(Ring { ring: id });
            Ok((id, va))
        },
    }
}

/// Whether somebody holds the ring `id`.
pub open spec fn is_held(rings: Rings, id: usize) -> bool {
    rings.metas@.contains_key(id) && rings.metas@[id].holders > 0
}

/// Joins the ring `id`, which somebody must hold; gives where its memory was mapped.
pub fn join(
    rings: &mut Rings,
    holds: &mut MailHolds,
    id: usize,
    view: Result<usize, MapError>,
) -> (r: Result<usize, RingError>)
    requires
        old(rings).wf(),
        old(rings).metas@.contains_key(id) ==> old(rings).metas@[id].holders < usize::MAX,
    ensures
        final(rings).wf(),
        r is Ok <==> is_held(*old(rings), id) && view is Ok,
        r is Err ==> *final(rings) == *old(rings) && *final(holds) == *old(holds),
        r matches Ok(va) ==> {
            let meta = old(rings).metas@[id];
            &&& view == Ok::<usize, MapError>(va)
            &&& final(rings).metas@ == old(rings).metas@.insert(
                id,
                RingMeta { holders: (meta.holders + 1) as usize, ..meta },
            )
            &&& final(rings).next == old(rings).next
            &&& final(holds).rings@ == old(holds).rings@.push(Ring { ring: id })
            &&& *final(holds) == (MailHolds { rings: final(holds).rings, ..*old(holds) })
        },
{
    let held: bool = match rings.metas.get(id) {
        Some(meta) => meta.holders > 0,
        None => false,
    };
    if !held {
        return Err(RingError::Dead);
    }
    match view {
        Err(_) => Err(RingError::Dead),
        Ok(va) => {
            let ghost before = *rings;
            let meta: &mut RingMeta = rings.metas.get_mut(id).unwrap();
            meta.holders = meta.holders + 1;
            holds.rings.push(Ring { ring: id });
            assert(rings.wf()) by {
                assert forall|k: usize| #[trigger] rings.metas@.contains_key(k) implies k
                    < rings.next by {
                    assert(before.metas@.contains_key(k));
                }
            }
            Ok(va)
        },
    }
}

/// The first place at which `list` has the ring `id`, from `from` on.
pub open spec fn place_of(list: Seq<Ring>, id: usize, from: int) -> Option<int>
    decreases list.len() - from,
{
    if from >= list.len() {
        None
    } else if list[from].ring == id {
        Some(from)
    } else {
        place_of(list, id, from + 1)
    }
}

fn find(list: &Vec<Ring>, id: usize) -> (at: Option<usize>)
    ensures
        at is None <==> place_of(list@, id, 0) is None,
        at matches Some(i) ==> place_of(list@, id, 0) == Some(i as int) && i < list@.len(),
{
    let mut i: usize = 0;
    while i < list.len()
        invariant
            i <= list@.len(),
            place_of(list@, id, 0) == place_of(list@, id, i as int),
        decreases list@.len() - i,
    {
        if list[i].id() == id {
            return Some(i);
        }
        i += 1;
    }
    None
}

/// `meta` after a holder has gone: the ring is dead, whoever is left.
pub open spec fn released(meta: RingMeta) -> RingMeta {
    RingMeta {
        holders: (meta.holders - 1) as usize,
        shared: RingShared { state: RingState::Dead, ..meta.shared },
        ..meta
    }
}

/// The task that runs lets go of the ring `id`, which is dead then; `false` where no task runs
/// or it does not hold the ring.
pub fn shut(rings: &mut Rings, running: bool, holds: &mut MailHolds, id: usize) -> (done: bool)
    requires
        old(rings).wf(),
        running && place_of(old(holds).rings@, id, 0) is Some ==> is_held(*old(rings), id),
    ensures
        final(rings).wf(),
        done == (running && place_of(old(holds).rings@, id, 0) is Some),
        !done ==> *final(rings) == *old(rings) && *final(holds) == *old(holds),
        done ==> {
            &&& final(holds).rings@ == old(holds).rings@.remove(
                place_of(old(holds).rings@, id, 0)->0,
            )
            &&& *final(holds) == (MailHolds { rings: final(holds).rings, ..*old(holds) })
            &&& final(rings).metas@ == old(rings).metas@.insert(
                id,
                released(old(rings).metas@[id]),
            )
            &&& final(rings).next == old(rings).next
        },
{
    if !running {
        return false;
    }
    match find(&holds.rings, id) {
        None => false,
        Some(at) => {
            holds.rings.remove(at);
            let ghost before = *rings;
            let meta: &mut RingMeta = rings.metas.get_mut(id).unwrap();
            meta.shared.dead();
            meta.holders = meta.holders - 1;
            assert(rings.wf()) by {
                assert forall|k: usize| #[trigger] rings.metas@.contains_key(k) implies k
                    < rings.next by {
                    assert(before.metas@.contains_key(k));
                }
            }
            true
        },
    }
}

/// A ring that one end has left stays dead, whatever its ends do.
pub proof fn law_dead_rings_stay_dead(meta: RingMeta)
    ensures
        released(meta).shared.state is Dead,
        released(released(meta)).shared == released(meta).shared,
{
}

} // verus!
