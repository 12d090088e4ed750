//! Holes: pipes through the kernel, one message at a time.
//!
//! A message goes into the slot whole and comes out whole, with the sender's number that the
//! kernel wrote. It has the length that its sender gave it; the receiver says how much it can
//! take, and gets all or nothing.
use vstd::prelude::*;
use crate::room::boot::expire;
use crate::room::boot::waited_only;
use crate::room::messenger::handoff::{GateError, Handoff};
use crate::room::messenger::wait as messenger;
use crate::room::messenger::wait::site::{HoleDir, WakeKey};
use crate::room::messenger::wait::{block_contract, lemma_wipe_quiet, someone_waits, wiped, woken};
use crate::room::{Room, RoomView};

verus! {

/// The number of a hole. Numbers start at one and are never used again.
#[derive(Clone, Copy, Debug, PartialEq, Eq, Structural)]
pub struct HoleId(pub usize);

/// A number that no hole has had.
pub fn allocate_id(next: &mut usize) -> (id: HoleId)
    requires
        *old(next) < usize::MAX,
    ensures
        id.0 == *old(next),
        *final(next) == *old(next) + 1,
{
    let id: usize = *next;
    *next = id + 1;
    HoleId(id)
}

/// Whether a hole can be used.
#[derive(Clone, Copy, Debug, PartialEq, Eq, Structural)]
pub enum HoleState {
    Live,
    Dead,
}

/// A hole.
pub struct HoleMeta {
    pub state: HoleState,
    pub id: HoleId,
    /// The life that waits at the hole depend on.
    pub life: usize,
    /// The message in the slot; without bytes the slot is empty.
    pub buf: Vec<u8>,
    /// Who sent it.
    pub from: usize,
    /// The task that made the hole.
    pub owner: usize,
    /// The name that was carved into it when it was made.
    pub mark: &'static str,
}

/// What a hole is.
#[verifier::ext_equal]
pub struct HoleView {
    pub live: bool,
    pub id: usize,
    pub life: usize,
    pub buf: Seq<u8>,
    pub from: usize,
    pub owner: usize,
    pub mark: &'static str,
}

impl View for HoleMeta {
    type V = HoleView;

    open spec fn view(&self) -> HoleView {
        HoleView {
            live: self.state is Live,
            id: self.id.0,
            life: self.life,
            buf: self.buf@,
            from: self.from,
            owner: self.owner,
            mark: self.mark,
        }
    }
}

impl HoleView {
    /// Whether `dir` can go ahead: there is a message to pull, or none in the way of a push.
    pub open spec fn is_ready(self, dir: HoleDir) -> bool {
        match dir {
            HoleDir::Pull => self.buf.len() > 0,
            HoleDir::Push => self.buf.len() == 0,
        }
    }

    /// What waits for `dir` wait for.
    pub open spec fn key_of(self, dir: HoleDir) -> WakeKey {
        WakeKey::Hole { hole: self.id, dir }
    }

    /// With a message in the slot.
    pub open spec fn filled(self, msg: Seq<u8>, from: usize) -> HoleView {
        HoleView { buf: msg, from, ..self }
    }

    /// With an empty slot.
    pub open spec fn emptied(self) -> HoleView {
        HoleView { buf: Seq::empty(), ..self }
    }
}

impl HoleMeta {
    /// A hole with an empty slot.
    pub fn new(id: HoleId, life: usize, owner: usize, mark: &'static str) -> (h: HoleMeta)
        ensures
            h@ == (HoleView {
                live: true,
                id: id.0,
                life,
                buf: Seq::empty(),
                from: 0,
                owner,
                mark,
            }),
    {
        HoleMeta { state: HoleState::Live, id, life, buf: Vec::new(), from: 0, owner, mark }
    }

    /// The life that waits at the hole depend on.
    pub fn life(&self) -> (l: usize)
        ensures
            l == self@.life,
    {
        self.life
    }

    /// The task that made the hole.
    pub fn owner(&self) -> (o: usize)
        ensures
            o == self@.owner,
    {
        self.owner
    }

    /// The hole's name.
    pub fn mark(&self) -> (m: &'static str)
        ensures
            m == self@.mark,
    {
        self.mark
    }

    /// The hole's number.
    pub fn id(&self) -> (id: HoleId)
        ensures
            id.0 == self@.id,
    {
        self.id
    }

    /// Whether the hole can be used.
    pub fn alive(&self) -> (yes: bool)
        ensures
            yes == self@.live,
    {
        match self.state {
            HoleState::Live => true,
            HoleState::Dead => false,
        }
    }

    /// Computes [`HoleView::is_ready`].
    pub fn ready(&self, dir: HoleDir) -> (yes: bool)
        ensures
            yes == self@.is_ready(dir),
    {
        match dir {
            HoleDir::Pull => self.buf.len() > 0,
            HoleDir::Push => self.buf.len() == 0,
        }
    }
}

/// Computes [`HoleView::key_of`].
pub fn key(meta: &HoleMeta, dir: HoleDir) -> (k: WakeKey)
    ensures
        k == meta@.key_of(dir),
{
    WakeKey::Hole { hole: meta.id.0, dir }
}

/// Whether `w` is `v` after the waits for `key` were told, as
/// [`crate::room::messenger::wait::wake`] does.
pub open spec fn told(v: RoomView, w: RoomView, me: usize, key: WakeKey, life: usize) -> bool {
    exists|had: bool, hads: Seq<bool>| w == #[trigger] woken(v, me, key, life, had, hads)
}

/// Why a message cannot go into the slot.
pub open spec fn push_objection(h: HoleView, msg: Seq<u8>) -> Option<GateError> {
    if !h.live {
        Some(GateError::Dead)
    } else if msg.len() == 0 {
        Some(GateError::Denied)
    } else if h.buf.len() > 0 {
        Some(GateError::Busy)
    } else {
        None
    }
}

/// Moves the message `msg` of the task `from` into the slot, if that is empty, and tells one
/// who waits to pull. `msg` is empty afterwards. No message is not a message.
pub fn try_push(
    room: &mut Room,
    me: usize,
    meta: &mut HoleMeta,
    msg: &mut Vec<u8>,
    from: usize,
) -> (r: Result<(), GateError>)
    requires
        old(room).wf(),
        old(room)@.alive(old(meta)@.life),
    ensures
        final(room).wf(),
        match push_objection(old(meta)@, old(msg)@) {
            Some(e) => {
                &&& r == Err::<(), GateError>(e)
                &&& *final(room) == *old(room)
                &&& *final(meta) == *old(meta)
                &&& *final(msg) == *old(msg)
            },
            None => {
                &&& r == Ok::<(), GateError>(())
                &&& final(meta)@ == old(meta)@.filled(old(msg)@, from)
                &&& final(msg)@.len() == 0
                &&& told(
                    old(room)@,
                    final(room)@,
                    me,
                    old(meta)@.key_of(HoleDir::Pull),
                    old(meta)@.life,
                )
            },
        },
{
    if !meta.alive() {
        return Err(GateError::Dead);
    }
    if msg.len() == 0 {
        return Err(GateError::Denied);
    }
    if meta.buf.len() > 0 {
        return Err(GateError::Busy);
    }
    std::mem::swap(&mut meta.buf, msg);
    meta.from = from;
    let k: WakeKey = key(meta, HoleDir::Pull);
    messenger::wake(room, me, k, meta.life);
    Ok(())
}

/// The length and the sender of the message in the slot, which stays there.
pub fn peek(meta: &HoleMeta) -> (r: Result<(usize, usize), GateError>)
    ensures
        r == (if !meta@.live {
            Err::<(usize, usize), GateError>(GateError::Dead)
        } else if meta@.buf.len() == 0 {
            Err::<(usize, usize), GateError>(GateError::Busy)
        } else {
            Ok::<(usize, usize), GateError>((meta@.buf.len() as usize, meta@.from))
        }),
{
    if !meta.alive() {
        return Err(GateError::Dead);
    }
    if meta.buf.len() == 0 {
        return Err(GateError::Busy);
    }
    Ok((meta.buf.len(), meta.from))
}

/// Why the message in the slot cannot be taken by one who has room for `max` bytes.
pub open spec fn take_objection(h: HoleView, max: usize) -> Option<GateError> {
    if !h.live {
        Some(GateError::Dead)
    } else if h.buf.len() == 0 {
        Some(GateError::Busy)
    } else if h.buf.len() > max {
        Some(GateError::Denied)
    } else {
        None
    }
}

/// Moves the message out of the slot, with its sender, and tells one who waits to push. A
/// message of more than `max` bytes stays where it is.
pub fn try_take(room: &mut Room, me: usize, meta: &mut HoleMeta, max: usize) -> (r: Result<
    (Vec<u8>, usize),
    GateError,
>)
    requires
        old(room).wf(),
        old(room)@.alive(old(meta)@.life),
    ensures
        final(room).wf(),
        match take_objection(old(meta)@, max) {
            Some(e) => {
                &&& r is Err && r->Err_0 == e
                &&& *final(room) == *old(room)
                &&& *final(meta) == *old(meta)
            },
            None => {
                &&& r is Ok
                &&& r->Ok_0.0@ == old(meta)@.buf
                &&& r->Ok_0.1 == old(meta)@.from
                &&& final(meta)@ == old(meta)@.emptied()
                &&& told(
                    old(room)@,
                    final(room)@,
                    me,
                    old(meta)@.key_of(HoleDir::Push),
                    old(meta)@.life,
                )
            },
        },
{
    if !meta.alive() {
        return Err(GateError::Dead);
    }
    let len: usize = meta.buf.len();
    if len == 0 {
        return Err(GateError::Busy);
    }
    if len > max {
        return Err(GateError::Denied);
    }
    let from: usize = meta.from;
    let mut msg: Vec<u8> = Vec::new();
    std::mem::swap(&mut meta.buf, &mut msg);
    let k: WakeKey = key(meta, HoleDir::Push);
    messenger::wake(room, me, k, meta.life);
    Ok((msg, from))
}

/// `r`, with `ready` for the answer of a task that goes on at once.
pub open spec fn seen_again(r: Result<Handoff<()>, GateError>, ready: bool) -> Result<
    Handoff<bool>,
    GateError,
> {
    match r {
        Ok(Handoff::Resume(_)) => Ok(Handoff::Resume(ready)),
        Ok(Handoff::Switch(pa)) => Ok(Handoff::Switch(pa)),
        Ok(Handoff::Idle) => Ok(Handoff::Idle),
        Ok(Handoff::Quit) => Ok(Handoff::Quit),
        Err(e) => Err(e),
    }
}

/// Computes [`seen_again`].
pub fn look_again(r: Result<Handoff<()>, GateError>, ready: bool) -> (a: Result<
    Handoff<bool>,
    GateError,
>)
    ensures
        a == seen_again(r, ready),
{
    match r {
        Ok(Handoff::Resume(_)) => Ok(Handoff::Resume(ready)),
        Ok(Handoff::Switch(pa)) => Ok(Handoff::Switch(pa)),
        Ok(Handoff::Idle) => Ok(Handoff::Idle),
        Ok(Handoff::Quit) => Ok(Handoff::Quit),
        Err(e) => Err(e),
    }
}

/// Whether a wait that had to be begun leads from `v` to `w` with the answer `a`: see
/// [`block_contract`].
pub open spec fn waited(
    v: RoomView,
    w: RoomView,
    me: usize,
    key: WakeKey,
    life: usize,
    dur: Option<u64>,
    now: u64,
    ready: bool,
    a: Result<Handoff<bool>, GateError>,
) -> bool {
    exists|r: Result<Handoff<()>, GateError>| #[trigger]
        block_contract(v, w, me, key, life, dur, now, r) && a == seen_again(r, ready)
}

/// The task that runs on hart `me` waits until `dir` can go ahead, for `dur` ticks or as long
/// as it takes. It does not wait at a dead hole, nor where `dir` can go ahead already, nor
/// for no time at all.
pub fn wait(
    room: &mut Room,
    me: usize,
    meta: &HoleMeta,
    dir: HoleDir,
    dur: Option<u64>,
    now: u64,
) -> (a: Result<Handoff<bool>, GateError>)
    requires
        old(room).wf(),
        me < old(room).lanes@.len(),
        dur matches Some(d) ==> now + d <= u64::MAX,
    ensures
        final(room).wf(),
        if !meta@.live {
            a == Err::<Handoff<bool>, GateError>(GateError::Dead) && *final(room) == *old(room)
        } else if meta@.is_ready(dir) {
            a == Ok::<Handoff<bool>, GateError>(Handoff::Resume(true)) && *final(room) == *old(room)
        } else if dur == Some(0u64) {
            a == Ok::<Handoff<bool>, GateError>(Handoff::Resume(false)) && *final(room) == *old(
                room,
            )
        } else {
            waited(
                old(room)@,
                final(room)@,
                me,
                meta@.key_of(dir),
                meta@.life,
                dur,
                now,
                false,
                a,
            )
        },
{
    if !meta.alive() {
        return Err(GateError::Dead);
    }
    if meta.ready(dir) {
        return Ok(Handoff::Resume(true));
    }
    if let Some(d) = dur {
        if d == 0 {
            return Ok(Handoff::Resume(false));
        }
    }
    let k: WakeKey = key(meta, dir);
    let r: Result<Handoff<()>, GateError> = messenger::wait(room, me, k, meta.life, dur, now);
    let ghost first = r;
    let ready: bool = meta.alive() && meta.ready(dir);
    let a: Result<Handoff<bool>, GateError> = look_again(r, ready);
    assert(block_contract(old(room)@, room@, me, k, meta.life, dur, now, first));
    a
}

/// Whether `w` is `v` after everybody who waited for `first` and then everybody who waited for
/// `second` was let go.
pub open spec fn wiped_both(
    v: RoomView,
    w: RoomView,
    me: usize,
    first: WakeKey,
    second: WakeKey,
) -> bool {
    exists|a: Seq<bool>, b: Seq<bool>|
        w == #[trigger] wiped(#[trigger] wiped(v, me, first, a), me, second, b)
}

/// Seals a hole: it is dead, and everybody who waits at it goes on.
pub fn seal(room: &mut Room, me: usize, meta: &mut HoleMeta)
    requires
        old(room).wf(),
    ensures
        final(room).wf(),
        final(meta)@ == (HoleView { live: false, ..old(meta)@ }),
        wiped_both(
            old(room)@,
            final(room)@,
            me,
            old(meta)@.key_of(HoleDir::Pull),
            old(meta)@.key_of(HoleDir::Push),
        ),
{
    let ghost v = room@;
    meta.state = HoleState::Dead;
    let pull: WakeKey = key(meta, HoleDir::Pull);
    let push: WakeKey = key(meta, HoleDir::Push);
    messenger::wipe(room, me, pull);
    let ghost mid = room@;
    messenger::wipe(room, me, push);
    proof {
        let a = choose|a: Seq<bool>| mid == #[trigger] wiped(v, me, pull, a);
        let b = choose|b: Seq<bool>| room@ == #[trigger] wiped(mid, me, push, b);
        assert(room@ == wiped(wiped(v, me, pull, a), me, push, b));
    }
}

/// The last pie of a hole is gone, and so is the hole: as [`seal`], and its life ends.
pub fn retire(room: &mut Room, me: usize, meta: HoleMeta)
    requires
        old(room).wf(),
        waited_only(
            old(room)@,
            meta@.life,
            meta@.key_of(HoleDir::Pull),
            meta@.key_of(HoleDir::Push),
        ),
    ensures
        final(room).wf(),
        exists|mid: RoomView| #[trigger]
            wiped_both(
                old(room)@,
                mid,
                me,
                meta@.key_of(HoleDir::Pull),
                meta@.key_of(HoleDir::Push),
            ) && final(room)@ == (RoomView { lives: mid.lives.remove(meta@.life), ..mid }),
{
    let mut meta: HoleMeta = meta;
    let life: usize = meta.life;
    let ghost v = room@;
    let ghost (first, second) = (meta@.key_of(HoleDir::Pull), meta@.key_of(HoleDir::Push));
    seal(room, me, &mut meta);
    proof {
        let (a, b) = choose|a: Seq<bool>, b: Seq<bool>|
            room@ == #[trigger] wiped(#[trigger] wiped(v, me, first, a), me, second, b);
        lemma_wipe_quiet(v, me, first, a);
        lemma_wipe_quiet(wiped(v, me, first, a), me, second, b);
        assert forall|k: WakeKey| #[trigger] someone_waits(room@, k) implies room@.sites[k].life
            != life by {
            assert(someone_waits(wiped(v, me, first, a), k));
            assert(someone_waits(v, k));
        }
    }
    expire(room, life);
}

/// Makes a hole of the task `owner`.
pub fn meta(next: &mut usize, life: usize, owner: usize, mark: &'static str) -> (h: HoleMeta)
    requires
        *old(next) < usize::MAX,
    ensures
        *final(next) == *old(next) + 1,
        h@ == (HoleView {
            live: true,
            id: *old(next),
            life,
            buf: Seq::empty(),
            from: 0,
            owner,
            mark,
        }),
{
    let id: HoleId = allocate_id(next);
    HoleMeta::new(id, life, owner, mark)
}

/// A message comes out of a hole as it went in, with the number of the task that sent it, and
/// leaves the slot empty for the next one.
pub proof fn law_hole_round_trip(h: HoleView, msg: Seq<u8>, from: usize, max: usize)
    requires
        push_objection(h, msg) is None,
        msg.len() <= max,
    ensures
        take_objection(h.filled(msg, from), max) is None,
        h.filled(msg, from).buf == msg,
        h.filled(msg, from).from == from,
        push_objection(h.filled(msg, from).emptied(), msg) is None,
        push_objection(h.filled(msg, from), msg) == Some(GateError::Busy),
{
}

/// At any time a live hole is ready for one direction and not for the other.
pub proof fn law_one_direction(h: HoleView)
    ensures
        h.is_ready(HoleDir::Pull) <==> !h.is_ready(HoleDir::Push),
        h.live && h.is_ready(HoleDir::Push) ==> forall|msg: Seq<u8>|
            msg.len() > 0 ==> #[trigger] push_objection(h, msg) is None,
        h.live && h.is_ready(HoleDir::Pull) ==> take_objection(h, usize::MAX) is None
            || h.buf.len() > usize::MAX,
{
}

/// The two directions of a hole, and different holes, are waited for under different keys.
pub proof fn law_keys_differ(g: HoleView, h: HoleView, d: HoleDir, e: HoleDir)
    requires
        g.key_of(d) == h.key_of(e),
    ensures
        g.id == h.id && d == e,
{
}

} // verus!
