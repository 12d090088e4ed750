//! Ports: mail that is copied through the kernel, one short message at a time.
//!
//! A message goes into the port's one slot and comes out again; a full slot and an empty one
//! are [`PortError::Busy`], and whoever finds it so waits. A port lives as long as a task
//! holds it.
use vstd::prelude::*;
use crate::mail::MailHolds;
use crate::table::Table;

verus! {

/// The length of a message.
pub const MSG_LEN: usize = 64;

/// Why a port was refused.
#[derive(Clone, Copy, Debug, PartialEq, Eq, Structural)]
pub enum PortError {
    /// Nobody holds the port, or the task does not.
    Dead,
    /// The slot is full, or empty.
    Busy,
}

/// Whether a port can be used.
#[derive(Clone, Copy, Debug, PartialEq, Eq, Structural)]
pub enum PortState {
    Live,
    Dead,
}

/// A port.
pub struct PortMeta {
    pub state: PortState,
    /// The message on its way.
    pub slot: Option<[u8; 64]>,
    /// What waits for the slot go by.
    pub key: usize,
    /// How many hold it.
    pub holders: usize,
}

/// A task's hold on a port.
#[derive(Clone, Copy, Debug, PartialEq, Eq, Structural)]
pub struct Port {
    pub handle: usize,
}

/// All ports.
pub struct Ports {
    pub metas: Table<usize, PortMeta>,
    pub next_key: usize,
    pub next_handle: usize,
}

impl Ports {
    /// Whether handles from the next one on are unused, and a port is dead when nobody holds
    /// it.
    pub open spec fn wf(self) -> bool {
        forall|h: usize| #[trigger]
            self.metas@.contains_key(h) ==> h < self.next_handle && (self.metas@[h].state is Dead
                <==> self.metas@[h].holders == 0)
    }

    /// No ports.
    pub fn new() -> (p: Ports)
        ensures
            p.wf(),
            p.metas@ == Map::<usize, PortMeta>::empty(),
            p.next_key == 0 && p.next_handle == 0,
    {
        Ports { metas: Table::new(), next_key: 0, next_handle: 0 }
    }
}

/// A port that was just opened.
pub open spec fn fresh_port(key: usize) -> PortMeta {
    PortMeta { state: PortState::Live, slot: None, key, holders: 1 }
}

/// Opens a port for the task that runs; gives its handle and its key.
pub fn open(ports: &mut Ports, holds: &mut MailHolds) -> (r: (usize, usize))
    requires
        old(ports).wf(),
        old(ports).next_handle < usize::MAX && old(ports).next_key < usize::MAX,
    ensures
        final(ports).wf(),
        r.0 == old(ports).next_handle && r.1 == old(ports).next_key,
        final(ports).next_handle == old(ports).next_handle + 1,
        final(ports).next_key == old(ports).next_key + 1,
        final(ports).metas@ == old(ports).metas@.insert(r.0, fresh_port(r.1)),
        !old(ports).metas@.contains_key(r.0),
        final(holds).ports@ == old(holds).ports@.push(Port { handle: r.0 }),
        *final(holds) == (MailHolds { ports: final(holds).ports, ..*old(holds) }),
{
    let key: usize = ports.next_key;
    let handle: usize = ports.next_handle;
    ports.next_key = key + 1;
    ports.next_handle = handle + 1;
    ports.metas.insert(
        handle,
        PortMeta { state: PortState::Live, slot: None, key, holders: 1 },
    );
    holds.ports.push(Port { handle });
    (handle, key)
}

/// Whether somebody holds the port `handle`.
pub open spec fn is_held(ports: Ports, handle: usize) -> bool {
    ports.metas@.contains_key(handle) && ports.metas@[handle].holders > 0
}

/// Joins the port `handle`, which somebody must hold; gives its key.
pub fn join(ports: &mut Ports, holds: &mut MailHolds, handle: usize) -> (r: Result<
    usize,
    PortError,
>)
    requires
        old(ports).wf(),
        old(ports).metas@.contains_key(handle) ==> old(ports).metas@[handle].holders < usize::MAX,
    ensures
        final(ports).wf(),
        !is_held(*old(ports), handle) ==> r == Err::<usize, PortError>(PortError::Dead)
            && *final(ports) == *old(ports) && *final(holds) == *old(holds),
        is_held(*old(ports), handle) ==> {
            let meta = old(ports).metas@[handle];
            &&& r == Ok::<usize, PortError>(meta.key)
            &&& final(ports).metas@ == old(ports).metas@.insert(
                handle,
                PortMeta { holders: (meta.holders + 1) as usize, ..meta },
            )
            &&& final(ports).next_handle == old(ports).next_handle
            &&& final(ports).next_key == old(ports).next_key
            &&& final(holds).ports@ == old(holds).ports@.push(Port { handle })
            &&& *final(holds) == (MailHolds { ports: final(holds).ports, ..*old(holds) })
        },
{
    let held: bool = match ports.metas.get(handle) {
        Some(meta) => meta.holders > 0,
        None => false,
    };
    if !held {
        return Err(PortError::Dead);
    }
    let ghost before = *ports;
    let meta: &mut PortMeta = ports.metas.get_mut(handle).unwrap();
    let key: usize = meta.key;
    meta.holders = meta.holders + 1;
    holds.ports.push(Port { handle });
    assert(ports.wf()) by {
        assert forall|h: usize| #[trigger] ports.metas@.contains_key(h) implies h
            < ports.next_handle && (ports.metas@[h].state is Dead <==> ports.metas@[h].holders
            == 0) by {
            assert(before.metas@.contains_key(h));
        }
    }
    Ok(key)
}

/// The first place at which `list` has `handle`, from `from` on.
pub open spec fn place_of(list: Seq<Port>, handle: usize, from: int) -> Option<int>
    decreases list.len() - from,
{
    if from >= list.len() {
        None
    } else if list[from].handle == handle {
        Some(from)
    } else {
        place_of(list, handle, from + 1)
    }
}

fn find(list: &Vec<Port>, handle: usize) -> (at: Option<usize>)
    ensures
        at is None <==> place_of(list@, handle, 0) is None,
        at matches Some(i) ==> place_of(list@, handle, 0) == Some(i as int) && i < list@.len(),
{
    let mut i: usize = 0;
    while i < list.len()
        invariant
            i <= list@.len(),
            place_of(list@, handle, 0) == place_of(list@, handle, i as int),
        decreases list@.len() - i,
    {
        if list[i].handle == handle {
            return Some(i);
        }
        i += 1;
    }
    None
}

/// `meta` after one fewer holds it.
pub open spec fn released(meta: PortMeta) -> PortMeta {
    PortMeta {
        holders: (meta.holders - 1) as usize,
        state: if meta.holders == 1 {
            PortState::Dead
        } else {
            meta.state
        },
        ..meta
    }
}

/// The task that runs lets go of the port `handle`; `false` where no task runs or it does not
/// hold the port. The last to let go closes it.
pub fn shut(ports: &mut Ports, running: bool, holds: &mut MailHolds, handle: usize) -> (done: bool)
    requires
        old(ports).wf(),
        running && place_of(old(holds).ports@, handle, 0) is Some ==> is_held(*old(ports), handle),
    ensures
        final(ports).wf(),
        done == (running && place_of(old(holds).ports@, handle, 0) is Some),
        !done ==> *final(ports) == *old(ports) && *final(holds) == *old(holds),
        done ==> {
            &&& final(holds).ports@ == old(holds).ports@.remove(
                place_of(old(holds).ports@, handle, 0)->0,
            )
            &&& *final(holds) == (MailHolds { ports: final(holds).ports, ..*old(holds) })
            &&& final(ports).metas@ == old(ports).metas@.insert(
                handle,
                released(old(ports).metas@[handle]),
            )
            &&& final(ports).next_handle == old(ports).next_handle
            &&& final(ports).next_key == old(ports).next_key
        },
{
    if !running {
        return false;
    }
    match find(&holds.ports, handle) {
        None => false,
        Some(at) => {
            holds.ports.remove(at);
            let ghost before = *ports;
            let meta: &mut PortMeta = ports.metas.get_mut(handle).unwrap();
            if meta.holders == 1 {
                meta.state = PortState::Dead;
            }
            meta.holders = meta.holders - 1;
            assert(ports.wf()) by {
                assert forall|h: usize| #[trigger] ports.metas@.contains_key(h) implies h
                    < ports.next_handle && (ports.metas@[h].state is Dead
                    <==> ports.metas@[h].holders == 0) by {
                    assert(before.metas@.contains_key(h));
                }
            }
            true
        },
    }
}

/// Whether the task that runs can use the port `handle`.
pub open spec fn reachable(ports: Ports, running: bool, holds: MailHolds, handle: usize) -> bool {
    &&& running
    &&& place_of(holds.ports@, handle, 0) is Some
    &&& is_held(ports, handle)
}

fn can_reach(ports: &Ports, running: bool, holds: &MailHolds, handle: usize) -> (yes: bool)
    requires
        ports.wf(),
    ensures
        yes == reachable(*ports, running, *holds, handle),
{
    if !running {
        return false;
    }
    if find(&holds.ports, handle).is_none() {
        return false;
    }
    match ports.metas.get(handle) {
        Some(meta) => match meta.state {
            PortState::Live => true,
            PortState::Dead => false,
        },
        None => false,
    }
}

/// The port's slot after a message went in.
pub open spec fn filled(meta: PortMeta, msg: [u8; 64]) -> PortMeta {
    PortMeta { slot: Some(msg), ..meta }
}

/// The port's slot after the message came out.
pub open spec fn emptied(meta: PortMeta) -> PortMeta {
    PortMeta { slot: None, ..meta }
}

/// Puts a message into the port's slot, if the slot is empty.
pub fn try_push(
    ports: &mut Ports,
    running: bool,
    holds: &MailHolds,
    handle: usize,
    msg: [u8; 64],
) -> (r: Result<(), PortError>)
    requires
        old(ports).wf(),
    ensures
        final(ports).wf(),
        ({
            let meta = old(ports).metas@[handle];
            if !reachable(*old(ports), running, *holds, handle) {
                r == Err::<(), PortError>(PortError::Dead) && *final(ports) == *old(ports)
            } else if meta.slot is Some {
                r == Err::<(), PortError>(PortError::Busy) && *final(ports) == *old(ports)
            } else {
                &&& r == Ok::<(), PortError>(())
                &&& final(ports).metas@ == old(ports).metas@.insert(
                    handle,
                    filled(meta, msg),
                )
                &&& final(ports).next_handle == old(ports).next_handle
                &&& final(ports).next_key == old(ports).next_key
            }
        }),
{
    if !can_reach(ports, running, holds, handle) {
        return Err(PortError::Dead);
    }
    if ports.metas.get(handle).unwrap().slot.is_some() {
        return Err(PortError::Busy);
    }
    let ghost before = *ports;
    let meta: &mut PortMeta = ports.metas.get_mut(handle).unwrap();
    meta.slot = Some(msg);
    assert(ports.wf()) by {
        assert forall|h: usize| #[trigger] ports.metas@.contains_key(h) implies h
            < ports.next_handle && (ports.metas@[h].state is Dead <==> ports.metas@[h].holders
            == 0) by {
            assert(before.metas@.contains_key(h));
        }
    }
    Ok(())
}

/// Takes the message out of the port's slot, if there is one.
pub fn try_pull(ports: &mut Ports, running: bool, holds: &MailHolds, handle: usize) -> (r: Result<
    [u8; 64],
    PortError,
>)
    requires
        old(ports).wf(),
    ensures
        final(ports).wf(),
        ({
            let meta = old(ports).metas@[handle];
            if !reachable(*old(ports), running, *holds, handle) {
                r == Err::<[u8; 64], PortError>(PortError::Dead) && *final(ports) == *old(ports)
            } else if meta.slot is None {
                r == Err::<[u8; 64], PortError>(PortError::Busy) && *final(ports) == *old(ports)
            } else {
                &&& r == Ok::<[u8; 64], PortError>(meta.slot->0)
                &&& final(ports).metas@ == old(ports).metas@.insert(
                    handle,
                    emptied(meta),
                )
                &&& final(ports).next_handle == old(ports).next_handle
                &&& final(ports).next_key == old(ports).next_key
            }
        }),
{
    if !can_reach(ports, running, holds, handle) {
        return Err(PortError::Dead);
    }
    let slot: Option<[u8; 64]> = ports.metas.get(handle).unwrap().slot;
    match slot {
        None => Err(PortError::Busy),
        Some(msg) => {
            let ghost before = *ports;
            let meta: &mut PortMeta = ports.metas.get_mut(handle).unwrap();
            meta.slot = None;
            assert(ports.wf()) by {
                assert forall|h: usize| #[trigger] ports.metas@.contains_key(h) implies h
                    < ports.next_handle && (ports.metas@[h].state is Dead
                    <==> ports.metas@[h].holders == 0) by {
                    assert(before.metas@.contains_key(h));
                }
            }
            Ok(msg)
        },
    }
}

/// A message comes out of a port as it went in, and leaves the port as it was before.
pub proof fn law_port_round_trip(meta: PortMeta, msg: [u8; 64])
    requires
        meta.slot is None,
    ensures
        filled(meta, msg).slot == Some(msg),
        emptied(filled(meta, msg)) == meta,
{
}

} // verus!
