//! Noles: bells. A nole carries nothing but whether it rings; a ring that nobody hears stays
//! until it is answered.
use vstd::prelude::*;
use crate::mail::hole::look_again;
use crate::mail::hole::{told, waited};
use crate::room::boot::expire;
use crate::room::boot::waited_only;
use crate::room::messenger::handoff::{GateError, Handoff};
use crate::room::messenger::wait as messenger;
use crate::room::messenger::wait::site::WakeKey;
use crate::room::messenger::wait::{block_contract, lemma_wipe_quiet, wiped};
use crate::room::{Room, RoomView};

verus! {

/// The number of a nole. Numbers start at one and are never used again.
#[derive(Clone, Copy, Debug, PartialEq, Eq, Structural)]
pub struct NoleId(pub usize);

/// A number that no nole has had.
pub fn allocate_id(next: &mut usize) -> (id: NoleId)
    requires
        *old(next) < usize::MAX,
    ensures
        id.0 == *old(next),
        *final(next) == *old(next) + 1,
{
    let id: usize = *next;
    *next = id + 1;
    NoleId(id)
}

/// Whether a nole can be used.
#[derive(Clone, Copy, Debug, PartialEq, Eq, Structural)]
pub enum NoleState {
    Live,
    Dead,
}

/// A nole.
#[derive(Clone, Copy, Debug, PartialEq, Eq, Structural)]
pub struct NoleMeta {
    pub state: NoleState,
    pub id: NoleId,
    /// The life that waits for the bell depend on.
    pub life: usize,
    /// Whether it rings.
    pub ring: bool,
    /// The task that made it.
    pub owner: usize,
}

impl NoleMeta {
    /// A nole that does not ring.
    pub fn new(next: &mut usize, life: usize, owner: usize) -> (n: NoleMeta)
        requires
            *old(next) < usize::MAX,
        ensures
            *final(next) == *old(next) + 1,
            n == (NoleMeta {
                state: NoleState::Live,
                id: NoleId(*old(next)),
                life,
                ring: false,
                owner,
            }),
    {
        let id: NoleId = allocate_id(next);
        NoleMeta { state: NoleState::Live, id, life, ring: false, owner }
    }

    /// The life that waits for the bell depend on.
    pub fn life(&self) -> (l: usize)
        ensures
            l == self.life,
    {
        self.life
    }

    /// The task that made it.
    pub fn owner(&self) -> (o: usize)
        ensures
            o == self.owner,
    {
        self.owner
    }

    /// Its number.
    pub fn id(&self) -> (id: NoleId)
        ensures
            id == self.id,
    {
        self.id
    }

    /// Whether it can be used.
    pub fn alive(&self) -> (yes: bool)
        ensures
            yes == (self.state is Live),
    {
        match self.state {
            NoleState::Live => true,
            NoleState::Dead => false,
        }
    }

    /// Whether it rings.
    pub fn ready(&self) -> (yes: bool)
        ensures
            yes == self.ring,
    {
        self.ring
    }

    /// What waits for the bell wait for.
    pub open spec fn key_spec(self) -> WakeKey {
        WakeKey::Nole { id: self.id.0 }
    }
}

/// Computes [`NoleMeta::key_spec`].
pub fn key(meta: &NoleMeta) -> (k: WakeKey)
    ensures
        k == meta.key_spec(),
{
    WakeKey::Nole { id: meta.id.0 }
}

/// Rings the bell and tells one who waits. One that rings already is busy: the last ring is
/// to be answered first.
pub fn ring(room: &mut Room, me: usize, meta: &mut NoleMeta) -> (r: Result<(), GateError>)
    requires
        old(room).wf(),
        old(room)@.alive(old(meta).life),
    ensures
        final(room).wf(),
        if !(old(meta).state is Live) {
            r == Err::<(), GateError>(GateError::Dead) && *final(meta) == *old(meta)
                && *final(room) == *old(room)
        } else if old(meta).ring {
            r == Err::<(), GateError>(GateError::Busy) && *final(meta) == *old(meta)
                && *final(room) == *old(room)
        } else {
            &&& r == Ok::<(), GateError>(())
            &&& *final(meta) == (NoleMeta { ring: true, ..*old(meta) })
            &&& told(old(room)@, final(room)@, me, old(meta).key_spec(), old(meta).life)
        },
{
    if !meta.alive() {
        return Err(GateError::Dead);
    }
    if meta.ring {
        return Err(GateError::Busy);
    }
    meta.ring = true;
    let k: WakeKey = key(meta);
    messenger::wake(room, me, k, meta.life);
    Ok(())
}

/// Answers the bell, of a live nole or a dead one. One that does not ring is busy.
pub fn hush(meta: &mut NoleMeta) -> (r: Result<(), GateError>)
    ensures
        r == (if old(meta).ring {
            Ok::<(), GateError>(())
        } else {
            Err::<(), GateError>(GateError::Busy)
        }),
        *final(meta) == (NoleMeta { ring: false, ..*old(meta) }),
{
    if !meta.ring {
        return Err(GateError::Busy);
    }
    meta.ring = false;
    Ok(())
}

/// The task that runs on hart `me` waits for the bell, for `dur` ticks or as long as it takes.
/// It does not wait for a dead one, nor for one that rings, nor for no time at all.
pub fn wait(room: &mut Room, me: usize, meta: &NoleMeta, dur: Option<u64>, now: u64) -> (a:
    Result<Handoff<bool>, GateError>)
    requires
        old(room).wf(),
        me < old(room).lanes@.len(),
        dur matches Some(d) ==> now + d <= u64::MAX,
    ensures
        final(room).wf(),
        if !(meta.state is Live) {
            a == Err::<Handoff<bool>, GateError>(GateError::Dead) && *final(room) == *old(room)
        } else if meta.ring {
            a == Ok::<Handoff<bool>, GateError>(Handoff::Resume(true)) && *final(room) == *old(room)
        } else if dur == Some(0u64) {
            a == Ok::<Handoff<bool>, GateError>(Handoff::Resume(false)) && *final(room) == *old(
                room,
            )
        } else {
            waited(
                old(room)@,
                final(room)@,
                me,
                meta.key_spec(),
                meta.life,
                dur,
                now,
                false,
                a,
            )
        },
{
    if !meta.alive() {
        return Err(GateError::Dead);
    }
    if meta.ready() {
        return Ok(Handoff::Resume(true));
    }
    if let Some(d) = dur {
        if d == 0 {
            return Ok(Handoff::Resume(false));
        }
    }
    let k: WakeKey = key(meta);
    let r: Result<Handoff<()>, GateError> = messenger::wait(room, me, k, meta.life, dur, now);
    let ghost first = r;
    let ready: bool = meta.alive() && meta.ready();
    let a: Result<Handoff<bool>, GateError> = look_again(r, ready);
    assert(block_contract(old(room)@, room@, me, k, meta.life, dur, now, first));
    a
}

/// Seals a nole: it is dead, and everybody who waits for it goes on. A ring stays to be
/// answered.
pub fn seal(room: &mut Room, me: usize, meta: &mut NoleMeta)
    requires
        old(room).wf(),
    ensures
        final(room).wf(),
        *final(meta) == (NoleMeta { state: NoleState::Dead, ..*old(meta) }),
        exists|hads: Seq<bool>| final(room)@ == #[trigger] wiped(
            old(room)@,
            me,
            old(meta).key_spec(),
            hads,
        ),
{
    meta.state = NoleState::Dead;
    let k: WakeKey = key(meta);
    messenger::wipe(room, me, k);
}

/// Whether `w` is `v` after everybody who waited for `key` was let go and `life` ended.
pub open spec fn gone(v: RoomView, w: RoomView, me: usize, key: WakeKey, life: usize) -> bool {
    exists|hads: Seq<bool>|
        w == (RoomView {
            lives: (#[trigger] wiped(v, me, key, hads)).lives.remove(life),
            ..wiped(v, me, key, hads)
        })
}

/// The last pie of a nole is gone, and so is the nole: as [`seal`], and its life ends.
pub fn retire(room: &mut Room, me: usize, meta: NoleMeta)
    requires
        old(room).wf(),
        waited_only(old(room)@, meta.life, meta.key_spec(), meta.key_spec()),
    ensures
        final(room).wf(),
        gone(old(room)@, final(room)@, me, meta.key_spec(), meta.life),
{
    let mut meta: NoleMeta = meta;
    let ghost v = room@;
    let life: usize = meta.life;
    let k: WakeKey = key(&meta);
    seal(room, me, &mut meta);
    let ghost mid = room@;
    proof {
        let hads = choose|hads: Seq<bool>| mid == #[trigger] wiped(v, me, k, hads);
        assert(mid == wiped(v, me, k, hads));
        lemma_wipe_quiet(v, me, k, hads);
    }
    expire(room, life);
}

} // verus!
