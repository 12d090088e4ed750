//! Toles: holes hung side by side, to wait until any of them has something.
//!
//! A tole keeps which holes, and which direction of each. It does not keep the holes: the cell
//! of a hole that is gone has no meaning any more. Each hole that hangs on a tole knocks there
//! when it has something.
use vstd::prelude::*;
use crate::mail::hole;
use crate::mail::hole::HoleMeta;
use crate::mail::hole::told;
use crate::room::boot::expire;
use crate::room::boot::waited_only;
use crate::room::messenger::handoff::{GateError, Handoff};
use crate::room::messenger::wait as messenger;
use crate::room::messenger::wait::site::{HoleDir, WakeKey};
use crate::room::messenger::wait::{
    block_contract, forward_contract, lemma_unforward_quiet, lemma_wipe_quiet, quieter, someone_waits,
    unforwarded, wiped,
};
use crate::room::{Room, RoomView};

verus! {

/// The number of a tole. Numbers start at one and are never used again.
#[derive(Clone, Copy, Debug, PartialEq, Eq, Structural)]
pub struct ToleId(pub usize);

/// A number that no tole has had.
pub fn allocate_id(next: &mut usize) -> (id: ToleId)
    requires
        *old(next) < usize::MAX,
    ensures
        id.0 == *old(next),
        *final(next) == *old(next) + 1,
{
    let id: usize = *next;
    *next = id + 1;
    ToleId(id)
}

/// Whether a tole can be used.
#[derive(Clone, Copy, Debug, PartialEq, Eq, Structural)]
pub enum ToleState {
    Live,
    Dead,
}

/// A direction of a hole.
#[derive(Clone, Copy, Debug, PartialEq, Eq, Structural)]
pub struct Cell {
    pub hole: usize,
    pub dir: HoleDir,
    /// The hole's life.
    pub life: usize,
}

impl Cell {
    /// Whether the hole still exists.
    pub fn live(&self, room: &Room) -> (yes: bool)
        ensures
            yes == room@.alive(self.life),
    {
        room.lives.contains(self.life)
    }

    /// The hole's number.
    pub fn hole(&self) -> (id: usize)
        ensures
            id == self.hole,
    {
        self.hole
    }

    /// The direction.
    pub fn dir(&self) -> (d: HoleDir)
        ensures
            d == self.dir,
    {
        self.dir
    }
}

/// A tole.
pub struct ToleMeta {
    pub state: ToleState,
    pub id: ToleId,
    /// The life that waits at the tole depend on.
    pub life: usize,
    pub cells: Vec<Cell>,
    /// The task that made it.
    pub owner: usize,
}

/// What a tole is.
#[verifier::ext_equal]
pub struct ToleView {
    pub live: bool,
    pub id: usize,
    pub life: usize,
    pub cells: Seq<Cell>,
    pub owner: usize,
}

impl View for ToleMeta {
    type V = ToleView;

    open spec fn view(&self) -> ToleView {
        ToleView {
            live: self.state is Live,
            id: self.id.0,
            life: self.life,
            cells: self.cells@,
            owner: self.owner,
        }
    }
}

/// The first place at which `cells` has this direction of this hole, from `from` on.
pub open spec fn cell_of(cells: Seq<Cell>, hole: usize, dir: HoleDir, from: int) -> Option<int>
    decreases cells.len() - from,
{
    if from >= cells.len() {
        None
    } else if cells[from].hole == hole && cells[from].dir == dir {
        Some(from)
    } else {
        cell_of(cells, hole, dir, from + 1)
    }
}

/// `cells` without the one at `at`, whose place the last one takes.
pub open spec fn taken_down(cells: Seq<Cell>, at: int) -> Seq<Cell> {
    cells.update(at, cells.last()).drop_last()
}

/// The cells of holes that exist, in order.
pub open spec fn live_cells(cells: Seq<Cell>, lives: Set<usize>) -> Seq<Cell>
    decreases cells.len(),
{
    if cells.len() == 0 {
        Seq::empty()
    } else if lives.contains(cells.last().life) {
        live_cells(cells.drop_last(), lives).push(cells.last())
    } else {
        live_cells(cells.drop_last(), lives)
    }
}

impl ToleView {
    /// What waits at the tole wait for.
    pub open spec fn key_spec(self) -> WakeKey {
        WakeKey::Tole { id: self.id }
    }
}

/// Computes [`ToleView::key_spec`].
pub fn key(meta: &ToleMeta) -> (k: WakeKey)
    ensures
        k == meta@.key_spec(),
{
    WakeKey::Tole { id: meta.id.0 }
}

fn same_dir(a: HoleDir, b: HoleDir) -> (yes: bool)
    ensures
        yes == (a == b),
{
    match (a, b) {
        (HoleDir::Pull, HoleDir::Pull) => true,
        (HoleDir::Push, HoleDir::Push) => true,
        _ => false,
    }
}

impl ToleMeta {
    /// A tole on which nothing hangs.
    pub fn new(id: ToleId, life: usize, owner: usize) -> (t: ToleMeta)
        ensures
            t@ == (ToleView { live: true, id: id.0, life, cells: Seq::empty(), owner }),
    {
        ToleMeta { state: ToleState::Live, id, life, cells: Vec::new(), owner }
    }

    /// The life that waits at the tole depend on.
    pub fn life(&self) -> (l: usize)
        ensures
            l == self@.life,
    {
        self.life
    }

    /// Its number.
    pub fn id(&self) -> (id: ToleId)
        ensures
            id.0 == self@.id,
    {
        self.id
    }

    /// The task that made it.
    pub fn owner(&self) -> (o: usize)
        ensures
            o == self@.owner,
    {
        self.owner
    }

    /// Whether it can be used.
    pub fn alive(&self) -> (yes: bool)
        ensures
            yes == self@.live,
    {
        match self.state {
            ToleState::Live => true,
            ToleState::Dead => false,
        }
    }

    /// The cells whose holes exist; none where there is no `memory` for them, and the one who
    /// waits looks again later.
    pub fn cells(&self, room: &Room, memory: bool) -> (list: Vec<Cell>)
        ensures
            list@ == (if memory {
                live_cells(self@.cells, room@.lives)
            } else {
                Seq::empty()
            }),
    {
        let mut list: Vec<Cell> = Vec::new();
        if !memory {
            return list;
        }
        let mut i: usize = 0;
        assert(self.cells@.take(0) =~= Seq::<Cell>::empty());
        while i < self.cells.len()
            invariant
                i <= self.cells@.len(),
                list@ == live_cells(self.cells@.take(i as int), room@.lives),
            decreases self.cells@.len() - i,
        {
            assert(self.cells@.take(i + 1).drop_last() =~= self.cells@.take(i as int));
            let c: Cell = self.cells[i];
            if c.live(room) {
                list.push(c);
            }
            i += 1;
        }
        assert(self.cells@.take(i as int) =~= self.cells@);
        list
    }

    fn find(&self, hole: usize, dir: HoleDir) -> (at: Option<usize>)
        ensures
            at is None <==> cell_of(self.cells@, hole, dir, 0) is None,
            at matches Some(i) ==> cell_of(self.cells@, hole, dir, 0) == Some(i as int) && i
                < self.cells@.len(),
    {
        let mut i: usize = 0;
        while i < self.cells.len()
            invariant
                i <= self.cells@.len(),
                cell_of(self.cells@, hole, dir, 0) == cell_of(self.cells@, hole, dir, i as int),
            decreases self.cells@.len() - i,
        {
            if self.cells[i].hole == hole && same_dir(self.cells[i].dir, dir) {
                return Some(i);
            }
            i += 1;
        }
        None
    }
}

proof fn lemma_cell_pushed(cells: Seq<Cell>, c: Cell, from: int)
    requires
        0 <= from <= cells.len(),
        cell_of(cells, c.hole, c.dir, from) is None,
    ensures
        cell_of(cells.push(c), c.hole, c.dir, from) == Some(cells.len() as int),
    decreases cells.len() - from,
{
    if from < cells.len() {
        lemma_cell_pushed(cells, c, from + 1);
    }
}

/// What [`hang`] promises.
pub open spec fn hang_contract(
    v: RoomView,
    w: RoomView,
    me: usize,
    t: ToleView,
    u: ToleView,
    h: crate::mail::hole::HoleView,
    dir: HoleDir,
    memory: bool,
    r: Result<(), GateError>,
) -> bool {
    let c = Cell { hole: h.id, dir, life: h.life };
    if !t.live {
        r == Err::<(), GateError>(GateError::Dead) && w == v && u == t
    } else if cell_of(t.cells, h.id, dir, 0) is Some {
        r == Ok::<(), GateError>(()) && w == v && u == t
    } else if !memory {
        r == Err::<(), GateError>(GateError::OoM) && w == v && u == t
    } else {
        ||| {
            &&& r == Err::<(), GateError>(GateError::OoM)
            &&& u == t
            &&& forward_contract(v, w, h.key_of(dir), h.life, t.id, t.life, false)
        }
        ||| {
            &&& r == Ok::<(), GateError>(())
            &&& u == (ToleView { cells: t.cells.push(c), ..t })
            &&& exists|mid: RoomView| #[trigger]
                forward_contract(v, mid, h.key_of(dir), h.life, t.id, t.life, true) && told(
                    mid,
                    w,
                    me,
                    t.key_spec(),
                    t.life,
                )
        }
    }
}

/// Hangs a direction of a hole on a tole: the hole knocks there from now on, and who waits at
/// the tole looks again. One that hangs there already stays as it is. Where the hole cannot
/// knock, the direction does not hang there either.
pub fn hang(
    room: &mut Room,
    me: usize,
    meta: &mut ToleMeta,
    hole: &HoleMeta,
    dir: HoleDir,
    memory: bool,
) -> (r: Result<(), GateError>)
    requires
        old(room).wf(),
        old(room)@.alive(old(meta)@.life),
    ensures
        final(room).wf(),
        hang_contract(
            old(room)@,
            final(room)@,
            me,
            old(meta)@,
            final(meta)@,
            hole@,
            dir,
            memory,
            r,
        ),
{
    let ghost v = room@;
    let ghost t = meta@;
    if !meta.alive() {
        return Err(GateError::Dead);
    }
    let c: Cell = Cell { hole: hole.id.0, dir, life: hole.life };
    if meta.find(c.hole, dir).is_some() {
        return Ok(());
    }
    if !memory {
        return Err(GateError::OoM);
    }
    meta.cells.push(c);
    proof {
        lemma_cell_pushed(t.cells, c, 0);
    }
    let k: WakeKey = hole::key(hole, dir);
    let f: Result<(), ()> = messenger::forward(room, k, hole.life, meta.id.0, meta.life);
    if f.is_err() {
        if let Some(at) = meta.find(c.hole, dir) {
            meta.cells.swap_remove(at);
        }
        assert(meta.cells@ =~= t.cells);
        return Err(GateError::OoM);
    }
    let ghost mid = room@;
    proof {
        assert(forward_contract(v, mid, k, hole@.life, t.id, t.life, true));
        lemma_forward_lives(v, mid, k, hole@.life, t.id, t.life, true);
    }
    let own: WakeKey = key(meta);
    messenger::wake(room, me, own, meta.life);
    assert(meta@ =~= (ToleView { cells: t.cells.push(c), ..t }));
    assert(told(mid, room@, me, t.key_spec(), t.life));
    Ok(())
}

proof fn lemma_forward_lives(
    v: RoomView,
    w: RoomView,
    key: WakeKey,
    life: usize,
    tole: usize,
    tole_life: usize,
    ok: bool,
)
    requires
        forward_contract(v, w, key, life, tole, tole_life, ok),
    ensures
        w.lives == v.lives,
{
}

/// Takes a direction of a hole off a tole: the hole does not knock there any more. One that
/// does not hang there is nothing to take off.
pub fn unhang(room: &mut Room, meta: &mut ToleMeta, hole: &HoleMeta, dir: HoleDir) -> (r: Result<
    (),
    GateError,
>)
    requires
        old(room).wf(),
    ensures
        final(room).wf(),
        if !old(meta)@.live {
            r == Err::<(), GateError>(GateError::Dead) && final(room)@ == old(room)@
                && final(meta)@ == old(meta)@
        } else {
            &&& r == Ok::<(), GateError>(())
            &&& final(room)@ == unforwarded(old(room)@, hole@.key_of(dir), old(meta)@.id)
            &&& final(meta)@ == (ToleView {
                cells: match cell_of(old(meta)@.cells, hole@.id, dir, 0) {
                    Some(at) => taken_down(old(meta)@.cells, at),
                    None => old(meta)@.cells,
                },
                ..old(meta)@
            })
        },
{
    if !meta.alive() {
        return Err(GateError::Dead);
    }
    let ghost t = meta@;
    if let Some(at) = meta.find(hole.id.0, dir) {
        meta.cells.swap_remove(at);
        assert(meta.cells@ =~= taken_down(t.cells, at as int));
    }
    let k: WakeKey = hole::key(hole, dir);
    messenger::unforward(room, k, meta.id.0);
    Ok(())
}

/// The room after the holes of `cells` were told not to knock at `tole` any more.
pub open spec fn cut_off(v: RoomView, cells: Seq<Cell>, tole: usize) -> RoomView
    decreases cells.len(),
{
    if cells.len() == 0 {
        v
    } else {
        let c = cells.last();
        unforwarded(
            cut_off(v, cells.drop_last(), tole),
            WakeKey::Hole { hole: c.hole, dir: c.dir },
            tole,
        )
    }
}

proof fn lemma_cut_off_quiet(v: RoomView, cells: Seq<Cell>, tole: usize)
    ensures
        quieter(v, cut_off(v, cells, tole)),
    decreases cells.len(),
{
    if cells.len() > 0 {
        let c = cells.last();
        let w = cut_off(v, cells.drop_last(), tole);
        lemma_cut_off_quiet(v, cells.drop_last(), tole);
        lemma_unforward_quiet(w, WakeKey::Hole { hole: c.hole, dir: c.dir }, tole);
    }
}

/// Whether `w` is `v` after every hole of `t` was cut off from it and everybody who waited at
/// it was let go.
pub open spec fn cleared_out(v: RoomView, w: RoomView, me: usize, t: ToleView) -> bool {
    exists|hads: Seq<bool>| w == #[trigger] wiped(cut_off(v, t.cells, t.id), me, t.key_spec(), hads)
}

fn retire_cells(room: &mut Room, me: usize, meta: &mut ToleMeta)
    requires
        old(room).wf(),
    ensures
        final(room).wf(),
        final(meta)@ == (ToleView { cells: Seq::empty(), ..old(meta)@ }),
        cleared_out(old(room)@, final(room)@, me, old(meta)@),
{
    let ghost v = room@;
    let ghost t = meta@;
    let mut cells: Vec<Cell> = Vec::new();
    std::mem::swap(&mut cells, &mut meta.cells);
    let mut i: usize = 0;
    assert(cells@.take(0) =~= Seq::<Cell>::empty());
    while i < cells.len()
        invariant
            i <= cells@.len(),
            room.wf(),
            meta@.id == t.id,
            room@ == cut_off(v, cells@.take(i as int), t.id),
        decreases cells@.len() - i,
    {
        assert(cells@.take(i + 1).drop_last() =~= cells@.take(i as int));
        let k: WakeKey = WakeKey::Hole { hole: cells[i].hole, dir: cells[i].dir };
        messenger::unforward(room, k, meta.id.0);
        i += 1;
    }
    assert(cells@.take(i as int) =~= cells@);
    let own: WakeKey = key(meta);
    messenger::wipe(room, me, own);
}

/// Seals a tole: it is dead, nothing hangs on it, no hole knocks at it, and everybody who
/// waits at it goes on.
pub fn seal(room: &mut Room, me: usize, meta: &mut ToleMeta)
    requires
        old(room).wf(),
    ensures
        final(room).wf(),
        final(meta)@ == (ToleView { live: false, cells: Seq::empty(), ..old(meta)@ }),
        cleared_out(old(room)@, final(room)@, me, old(meta)@),
{
    meta.state = ToleState::Dead;
    retire_cells(room, me, meta);
}

/// The last pie of a tole is gone, and so is the tole: as [`seal`], and its life ends.
pub fn retire(room: &mut Room, me: usize, meta: ToleMeta)
    requires
        old(room).wf(),
        waited_only(old(room)@, meta@.life, meta@.key_spec(), meta@.key_spec()),
    ensures
        final(room).wf(),
        exists|mid: RoomView| #[trigger]
            cleared_out(old(room)@, mid, me, meta@) && final(room)@ == (RoomView {
                lives: mid.lives.remove(meta@.life),
                ..mid
            }),
{
    let mut meta: ToleMeta = meta;
    let life: usize = meta.life;
    let ghost v = room@;
    let ghost t = meta@;
    retire_cells(room, me, &mut meta);
    proof {
        let hads = choose|hads: Seq<bool>|
            room@ == #[trigger] wiped(cut_off(v, t.cells, t.id), me, t.key_spec(), hads);
        lemma_cut_off_quiet(v, t.cells, t.id);
        lemma_wipe_quiet(cut_off(v, t.cells, t.id), me, t.key_spec(), hads);
        assert forall|k: WakeKey| #[trigger] someone_waits(room@, k) implies room@.sites[k].life
            != life by {
            assert(someone_waits(cut_off(v, t.cells, t.id), k));
            assert(someone_waits(v, k));
        }
    }
    expire(room, life);
}

/// The task that runs on hart `me` waits until any of the tole's holes has something, for `dur`
/// ticks or as long as it takes. Whoever wakes looks at [`ToleMeta::cells`] for itself.
pub fn wait_tole(room: &mut Room, me: usize, meta: &ToleMeta, dur: Option<u64>, now: u64) -> (r:
    Result<Handoff<()>, GateError>)
    requires
        old(room).wf(),
        me < old(room).lanes@.len(),
        dur matches Some(d) ==> now + d <= u64::MAX,
    ensures
        final(room).wf(),
        if !meta@.live {
            r == Err::<Handoff<()>, GateError>(GateError::Dead) && *final(room) == *old(room)
        } else {
            block_contract(
                old(room)@,
                final(room)@,
                me,
                meta@.key_spec(),
                meta@.life,
                dur,
                now,
                r,
            )
        },
{
    if !meta.alive() {
        return Err(GateError::Dead);
    }
    let k: WakeKey = key(meta);
    messenger::wait(room, me, k, meta.life, dur, now)
}

/// Makes a tole of the task `owner`.
pub fn meta(next: &mut usize, life: usize, owner: usize) -> (t: ToleMeta)
    requires
        *old(next) < usize::MAX,
    ensures
        *final(next) == *old(next) + 1,
        t@ == (ToleView { live: true, id: *old(next), life, cells: Seq::empty(), owner }),
{
    let id: ToleId = allocate_id(next);
    ToleMeta::new(id, life, owner)
}

/// Taking off what was hung last leaves the cells as they were.
pub proof fn law_hang_then_unhang(cells: Seq<Cell>, c: Cell)
    requires
        cell_of(cells, c.hole, c.dir, 0) is None,
    ensures
        cell_of(cells.push(c), c.hole, c.dir, 0) == Some(cells.len() as int),
        taken_down(cells.push(c), cells.len() as int) == cells,
{
    lemma_cell_pushed(cells, c, 0);
    assert(taken_down(cells.push(c), cells.len() as int) =~= cells);
}

/// The cells that a tole shows are some of its own, and of holes that exist.
pub proof fn law_cells_shown_exist(cells: Seq<Cell>, lives: Set<usize>)
    ensures
        forall|i: int|
            0 <= i < live_cells(cells, lives).len() ==> lives.contains(
                (#[trigger] live_cells(cells, lives)[i]).life,
            ) && cells.contains(live_cells(cells, lives)[i]),
    decreases cells.len(),
{
    if cells.len() > 0 {
        let rest = cells.drop_last();
        law_cells_shown_exist(rest, lives);
        assert forall|i: int| 0 <= i < live_cells(cells, lives).len() implies lives.contains(
            (#[trigger] live_cells(cells, lives)[i]).life,
        ) && cells.contains(live_cells(cells, lives)[i]) by {
            if i < live_cells(rest, lives).len() {
                let c = live_cells(rest, lives)[i];
                assert(live_cells(cells, lives)[i] == c);
                let j = choose|j: int| 0 <= j < rest.len() && rest[j] == c;
                assert(cells[j] == c);
            } else {
                assert(cells[cells.len() - 1] == cells.last());
            }
        }
    }
}

} // verus!
