//! The rules of the mail: who may do what with a hole, a tole, a pole, a port, a ring, a dock and
//! a pie, and what becomes of each.
use vstd::prelude::*;
use vstd::arithmetic::power2::{lemma_pow2_pos, lemma_pow2_unfold, lemma2_to64, pow2};
use crate::mail::dock::{Dock, DockError, DockMeta, DockShared, Docks};
use crate::mail::hole::{HoleView, push_objection, told, take_objection, wiped_both};
use crate::mail::pie::{AnyPie, G, GR, MailError, R, W, code_of};
use crate::mail::memo::Memo;
use crate::mail::nole::{NoleMeta, gone};
use crate::mail::pole::{Lent, Payload, PoleMeta, is_fresh, misfit, spare, view_of};
use crate::mail::port::{Port, PortMeta, Ports};
use crate::mail::ring::{Ring, RingMeta, is_power, is_shape, shared_bytes};
use crate::mail::tole::{Cell, ToleView, cell_of, cleared_out, cut_off, hang_contract, live_cells, taken_down};
use crate::mail::vest::{Pies, copy_of, obstacle};
use crate::mail::{HOLE_MTU_MAX, MailHolds, PTE_R, PTE_W, Segment, contents, total};
use crate::mail::{dock, narrow, port, ring};
use crate::room::RoomView;
use crate::room::laws::{law_wake_leaves_beacon, law_wake_serves_the_first};
use crate::room::lines::{each_once, lemma_released_stay_ready, lemma_wipe_frees};
use crate::room::messenger::handoff::GateError;
use crate::room::messenger::wait::site::{HoleDir, WakeKey};
use crate::room::messenger::wait::{cleared, hangs_at, knocked_all, unforwarded, wiped, woken};
use crate::task::MapError;
use crate::unit::task::TaskState;

verus! {

/// A message goes into a hole that lives and is empty, and only if it is one: a dead hole, an
/// empty message and a full hole are refused each in its own way, the first of them that holds.
pub proof fn law_push_fills_an_empty_hole(h: HoleView, msg: Seq<u8>)
    ensures
        push_objection(h, msg) is None <==> h.live && msg.len() > 0 && h.buf.len() == 0,
        push_objection(h, msg) == Some(GateError::Dead) <==> !h.live,
        push_objection(h, msg) == Some(GateError::Denied) <==> h.live && msg.len() == 0,
        push_objection(h, msg) == Some(GateError::Busy) <==> h.live && msg.len() > 0 && h.buf.len()
            > 0,
{
}

/// A message comes out of a hole that lives, holds one and fits: a dead hole, an empty one and
/// a message that is too long are refused each in its own way.
pub proof fn law_take_empties_a_full_hole(h: HoleView, max: usize)
    ensures
        take_objection(h, max) is None <==> h.live && 0 < h.buf.len() <= max,
        take_objection(h, max) == Some(GateError::Dead) <==> !h.live,
        take_objection(h, max) == Some(GateError::Busy) <==> h.live && h.buf.len() == 0,
        take_objection(h, max) == Some(GateError::Denied) <==> h.live && h.buf.len() > max
            && h.buf.len() > 0,
{
}

/// What was pushed is in the hole, with who pushed it, and the hole is ready to be pulled from
/// and not to be pushed into; when it was taken it is the other way round. Nothing else of the
/// hole changes.
pub proof fn law_hole_turns_round(h: HoleView, msg: Seq<u8>, from: usize)
    requires
        msg.len() > 0,
    ensures
        h.filled(msg, from).buf == msg,
        h.filled(msg, from).from == from,
        h.filled(msg, from).is_ready(HoleDir::Pull),
        !h.filled(msg, from).is_ready(HoleDir::Push),
        h.emptied().buf.len() == 0,
        h.emptied().is_ready(HoleDir::Push),
        !h.emptied().is_ready(HoleDir::Pull),
        h.filled(msg, from).live == h.live && h.emptied().live == h.live,
        h.filled(msg, from).id == h.id && h.emptied().id == h.id,
        h.filled(msg, from).life == h.life && h.emptied().life == h.life,
        h.filled(msg, from).owner == h.owner && h.emptied().owner == h.owner,
{
}

/// Each direction of a hole has a key of its own, which names the hole and the direction.
pub proof fn law_hole_keys_name_the_hole(h: HoleView, dir: HoleDir)
    ensures
        h.key_of(dir) == (WakeKey::Hole { hole: h.id, dir }),
{
}

/// Sealing a hole frees everybody who waits at it, in either direction, and no site of it is
/// left.
pub proof fn law_seal_frees_both_sides(v: RoomView, w: RoomView, me: usize, h: HoleView, i: int)
    requires
        wiped_both(v, w, me, h.key_of(HoleDir::Pull), h.key_of(HoleDir::Push)),
    ensures
        ({
            let pull = WakeKey::Hole { hole: h.id, dir: HoleDir::Pull };
            let push = WakeKey::Hole { hole: h.id, dir: HoleDir::Push };
            &&& !w.sites.contains_key(pull)
            &&& !w.sites.contains_key(push)
            &&& v.sites.contains_key(pull) && 0 <= i < v.sites[pull].line.len()
                ==> w.tasks[v.sites[pull].line[i]].state == TaskState::Starved
            &&& v.sites.contains_key(push) && 0 <= i < v.sites[push].line.len()
                ==> w.tasks[v.sites[push].line[i]].state == TaskState::Starved
            &&& w.lives == v.lives
        }),
{
    let pull = WakeKey::Hole { hole: h.id, dir: HoleDir::Pull };
    let push = WakeKey::Hole { hole: h.id, dir: HoleDir::Push };
    let (a, b) = choose|a: Seq<bool>, b: Seq<bool>|
        w == #[trigger] wiped(#[trigger] wiped(v, me, pull, a), me, push, b);
    let mid = wiped(v, me, pull, a);
    lemma_wipe_frees(v, me, pull, a, push);
    lemma_wipe_frees(mid, me, push, b, pull);
    if v.sites.contains_key(pull) && 0 <= i < v.sites[pull].line.len() {
        assert(mid.tasks[v.sites[pull].line[i]].state == TaskState::Starved);
    }
}

/// A cell is found by its hole and its direction, both; the first that has them is found, and
/// where there is one it is.
pub proof fn law_cell_is_found_exactly(cells: Seq<Cell>, hole: usize, dir: HoleDir, from: int)
    requires
        0 <= from,
    ensures
        cell_of(cells, hole, dir, from) matches Some(i) ==> from <= i < cells.len()
            && cells[i].hole == hole && cells[i].dir == dir && forall|j: int|
            from <= j < i ==> !((#[trigger] cells[j]).hole == hole && cells[j].dir == dir),
        cell_of(cells, hole, dir, from) is None ==> forall|j: int|
            from <= j < cells.len() ==> !((#[trigger] cells[j]).hole == hole && cells[j].dir == dir),
    decreases cells.len() - from,
{
    if from < cells.len() && !(cells[from].hole == hole && cells[from].dir == dir) {
        law_cell_is_found_exactly(cells, hole, dir, from + 1);
    }
}

/// Taking a cell down takes this one and leaves every other one, once.
pub proof fn law_taking_down_takes_one_cell(cells: Seq<Cell>, at: int, j: int)
    requires
        0 <= at < cells.len(),
        0 <= j < cells.len(),
        cells.no_duplicates(),
    ensures
        taken_down(cells, at).len() == cells.len() - 1,
        j != at ==> taken_down(cells, at).contains(cells[j]),
        !taken_down(cells, at).contains(cells[at]),
{
    let left = taken_down(cells, at);
    if j != at {
        if j == cells.len() - 1 {
            assert(left[at] == cells[j]);
        } else {
            assert(left[j] == cells[j]);
        }
    }
    if left.contains(cells[at]) {
        let k = choose|k: int| 0 <= k < left.len() && left[k] == cells[at];
        if k == at {
            assert(left[k] == cells[cells.len() - 1]);
        } else {
            assert(left[k] == cells[k]);
        }
    }
}

/// The cells that are shown are those whose hole still lives, in order.
pub proof fn law_live_cells_are_shown(cells: Seq<Cell>, lives: Set<usize>)
    ensures
        live_cells(cells, lives) == cells.filter(|c: Cell| lives.contains(c.life)),
    decreases cells.len(),
{
    reveal(Seq::filter);
    if cells.len() > 0 {
        law_live_cells_are_shown(cells.drop_last(), lives);
    } else {
        assert(live_cells(cells, lives) =~= cells.filter(|c: Cell| lives.contains(c.life)));
    }
}

/// Hanging a hole at a tole: a dead tole refuses; a direction that hangs there changes nothing;
/// without memory it is refused; and else it hangs last among the cells, with the hole's life,
/// and is refused only for want of memory.
pub proof fn law_hanging_adds_one_cell(
    v: RoomView,
    w: RoomView,
    me: usize,
    t: ToleView,
    u: ToleView,
    h: HoleView,
    dir: HoleDir,
    memory: bool,
    r: Result<(), GateError>,
)
    requires
        hang_contract(v, w, me, t, u, h, dir, memory, r),
    ensures
        ({
            let there = exists|i: int|
                0 <= i < t.cells.len() && (#[trigger] t.cells[i]).hole == h.id && t.cells[i].dir
                    == dir;
            &&& r == Err::<(), GateError>(GateError::Dead) <==> !t.live
            &&& t.live && there ==> r is Ok && u == t && w == v
            &&& t.live && !there && !memory ==> r == Err::<(), GateError>(GateError::OoM) && u == t
                && w == v
            &&& r is Err ==> u == t && (r == Err::<(), GateError>(GateError::Dead) || r == Err::<
                (),
                GateError,
            >(GateError::OoM))
            &&& r is Ok && !there ==> u.cells == t.cells.push(
                Cell { hole: h.id, dir, life: h.life },
            )
            &&& u.id == t.id && u.life == t.life && u.owner == t.owner && u.live == t.live
        }),
{
    law_cell_is_found_exactly(t.cells, h.id, dir, 0);
}

/// Whether the tole hangs at the key.
pub open spec fn hung(v: RoomView, key: WakeKey, tole: usize) -> bool {
    v.sites.contains_key(key) && exists|i: int|
        0 <= i < v.sites[key].fwd.len() && (#[trigger] v.sites[key].fwd[i]).0 == tole
}

/// Whether at no key a tole hangs twice.
pub open spec fn all_once(v: RoomView) -> bool {
    forall|k: WakeKey| #[trigger] v.sites.contains_key(k) ==> each_once(v.sites[k].fwd)
}

proof fn lemma_unforward(v: RoomView, key: WakeKey, tole: usize)
    requires
        all_once(v),
    ensures
        all_once(unforwarded(v, key, tole)),
        !hung(unforwarded(v, key, tole), key, tole),
        forall|k: WakeKey, t: usize|
            k != key || t != tole ==> (#[trigger] hung(unforwarded(v, key, tole), k, t) ==> hung(
                v,
                k,
                t,
            )),
{
    let w = unforwarded(v, key, tole);
    if v.sites.contains_key(key) {
        let fwd = v.sites[key].fwd;
        assert(each_once(fwd));
        if exists|i: int| 0 <= i < fwd.len() && (#[trigger] fwd[i]).0 == tole {
            let i0 = choose|i: int| 0 <= i < fwd.len() && (#[trigger] fwd[i]).0 == tole;
            assert(hangs_at(fwd, i0, tole));
            let at = choose|at: int| #[trigger] hangs_at(fwd, at, tole);
            assert(hangs_at(fwd, at, tole));
            let left = fwd.remove(at);
            assert forall|i: int| 0 <= i < left.len() implies (#[trigger] left[i]).0 != tole && left[i]
                == (if i < at {
                fwd[i]
            } else {
                fwd[i + 1]
            }) by {
                if i < at {
                    assert(fwd[i].0 != fwd[at].0);
                } else {
                    assert(fwd[at].0 != fwd[i + 1].0);
                }
            }
            assert(each_once(left)) by {
                assert forall|i: int, j: int| 0 <= i < j < left.len() implies (#[trigger] left[i]).0 != (
                #[trigger] left[j]).0 by {
                    let a = if i < at {
                        i
                    } else {
                        i + 1
                    };
                    let b = if j < at {
                        j
                    } else {
                        j + 1
                    };
                    assert(fwd[a].0 != fwd[b].0);
                }
            }
        }
        assert forall|k: WakeKey, t: usize| k != key || t != tole implies (#[trigger] hung(w, k, t)
            ==> hung(v, k, t)) by {
            if hung(w, k, t) && k == key {
                let i = choose|i: int|
                    0 <= i < w.sites[key].fwd.len() && (#[trigger] w.sites[key].fwd[i]).0 == t;
                let x = w.sites[key].fwd[i];
                if w.sites[key].fwd == fwd {
                    assert(fwd[i].0 == t);
                } else {
                    let at = choose|at: int| #[trigger] hangs_at(fwd, at, tole);
                    if i < at {
                        assert(fwd[i].0 == t);
                    } else {
                        assert(fwd[i + 1].0 == t);
                    }
                }
            }
        }
    }
}

/// A tole that is sealed hangs nowhere any more: at none of the directions that were its cells.
/// No other tole comes to hang anywhere by it.
pub proof fn law_cut_off_hangs_nowhere(v: RoomView, cells: Seq<Cell>, tole: usize)
    requires
        all_once(v),
    ensures
        all_once(cut_off(v, cells, tole)),
        forall|i: int|
            0 <= i < cells.len() ==> !hung(
                cut_off(v, cells, tole),
                WakeKey::Hole { hole: (#[trigger] cells[i]).hole, dir: cells[i].dir },
                tole,
            ),
        forall|k: WakeKey, t: usize| #[trigger]
            hung(cut_off(v, cells, tole), k, t) ==> hung(v, k, t),
    decreases cells.len(),
{
    if cells.len() > 0 {
        let rest = cells.drop_last();
        let c = cells.last();
        law_cut_off_hangs_nowhere(v, rest, tole);
        let u = cut_off(v, rest, tole);
        let key = WakeKey::Hole { hole: c.hole, dir: c.dir };
        lemma_unforward(u, key, tole);
        let w = cut_off(v, cells, tole);
        assert(w == unforwarded(u, key, tole));
        assert forall|i: int| 0 <= i < cells.len() implies !hung(
            w,
            WakeKey::Hole { hole: (#[trigger] cells[i]).hole, dir: cells[i].dir },
            tole,
        ) by {
            let k = WakeKey::Hole { hole: cells[i].hole, dir: cells[i].dir };
            if k != key {
                assert(rest[i] == cells[i]);
                assert(!hung(u, k, tole));
                assert(hung(w, k, tole) ==> hung(u, k, tole));
            }
        }
        assert forall|k: WakeKey, t: usize| #[trigger] hung(w, k, t) implies hung(v, k, t) by {
            if k != key || t != tole {
                assert(hung(u, k, t));
            }
        }
    }
}

/// A pole is of whole pages of 4096 bytes, at least one, and not larger than half of all that
/// can be addressed.
pub proof fn law_pole_sizes(size: usize)
    ensures
        misfit(size) <==> size == 0 || size % 4096 != 0 || 2 * size + 1 > usize::MAX + 1,
{
}

/// A view of a pole is found by its token: the first that has it, and where there is one it is.
pub proof fn law_view_is_found_exactly(list: Seq<Lent>, token: usize, from: int)
    requires
        0 <= from,
    ensures
        view_of(list, token, from) matches Some(i) ==> from <= i < list.len() && list[i].token
            == token && forall|j: int| from <= j < i ==> (#[trigger] list[j]).token != token,
        view_of(list, token, from) is None ==> forall|j: int|
            from <= j < list.len() ==> (#[trigger] list[j]).token != token,
    decreases list.len() - from,
{
    if from < list.len() && list[from].token != token {
        law_view_is_found_exactly(list, token, from + 1);
    }
}

/// A port is found by its handle.
pub proof fn law_port_is_found_exactly(list: Seq<Port>, handle: usize, from: int)
    requires
        0 <= from,
    ensures
        port::place_of(list, handle, from) matches Some(i) ==> from <= i < list.len()
            && list[i].handle == handle && forall|j: int|
            from <= j < i ==> (#[trigger] list[j]).handle != handle,
        port::place_of(list, handle, from) is None ==> forall|j: int|
            from <= j < list.len() ==> (#[trigger] list[j]).handle != handle,
    decreases list.len() - from,
{
    if from < list.len() && list[from].handle != handle {
        law_port_is_found_exactly(list, handle, from + 1);
    }
}

/// A port dies with its last holder and not before; what is in it and its key stay.
pub proof fn law_port_dies_with_its_last_holder(meta: PortMeta)
    requires
        meta.holders > 0,
    ensures
        port::released(meta).holders == meta.holders - 1,
        meta.holders == 1 ==> port::released(meta).state is Dead,
        meta.holders > 1 ==> port::released(meta).state == meta.state,
        port::released(meta).slot == meta.slot,
        port::released(meta).key == meta.key,
{
}

/// A new port lives, is empty and has one holder.
pub proof fn law_new_port_is_empty(key: usize, msg: [u8; 64])
    ensures
        port::fresh_port(key).state is Live,
        port::fresh_port(key).slot is None,
        port::fresh_port(key).holders == 1,
        port::fresh_port(key).key == key,
        port::filled(port::fresh_port(key), msg).slot == Some(msg),
        port::emptied(port::filled(port::fresh_port(key), msg)) == port::fresh_port(key),
{
}

/// A ring is found by its number.
pub proof fn law_ring_is_found_exactly(list: Seq<Ring>, id: usize, from: int)
    requires
        0 <= from,
    ensures
        ring::place_of(list, id, from) matches Some(i) ==> from <= i < list.len() && list[i].ring
            == id && forall|j: int| from <= j < i ==> (#[trigger] list[j]).ring != id,
        ring::place_of(list, id, from) is None ==> forall|j: int|
            from <= j < list.len() ==> (#[trigger] list[j]).ring != id,
    decreases list.len() - from,
{
    if from < list.len() && list[from].ring != id {
        law_ring_is_found_exactly(list, id, from + 1);
    }
}

/// A ring is dead as soon as one of its holders leaves; how many are left is counted.
pub proof fn law_ring_dies_with_its_first_leaver(meta: RingMeta)
    requires
        meta.holders > 0,
    ensures
        ring::released(meta).holders == meta.holders - 1,
        ring::released(meta).shared.state is Dead,
        ring::released(meta).shared.item_len == meta.shared.item_len,
        ring::released(meta).shared.slots == meta.shared.slots,
        ring::released(meta).id == meta.id,
{
}

proof fn lemma_power(n: nat) -> (e: nat)
    requires
        is_power(n),
    ensures
        n == pow2(e),
    decreases n,
{
    if n == 1 {
        lemma2_to64();
        0
    } else {
        let e = lemma_power(n / 2);
        lemma_pow2_unfold(e + 1);
        e + 1
    }
}

proof fn lemma_is_power(e: nat)
    ensures
        is_power(pow2(e)),
    decreases e,
{
    if e == 0 {
        lemma2_to64();
    } else {
        lemma_is_power((e - 1) as nat);
        lemma_pow2_unfold(e);
        lemma_pow2_pos((e - 1) as nat);
        let half = pow2((e - 1) as nat);
        assert(pow2(e) == 2 * half);
        assert(pow2(e) / 2 == half);
    }
}

/// A ring has items of at least one byte and as many slots as a power of two.
pub proof fn law_ring_shapes(item_len: usize, slots: usize)
    ensures
        is_shape(item_len, slots) <==> item_len > 0 && exists|e: nat| slots == #[trigger] pow2(e),
{
    if is_shape(item_len, slots) {
        let e = lemma_power(slots as nat);
        assert(slots == pow2(e));
    }
    if exists|e: nat| slots == #[trigger] pow2(e) {
        let e = choose|e: nat| slots == #[trigger] pow2(e);
        lemma_is_power(e);
    }
}

/// A ring's memory is the least number of whole pages of 4096 bytes that holds its head and all
/// of its slots.
pub proof fn law_ring_memory_is_whole_pages(off_buffer: usize, item_len: usize, slots: usize)
    ensures
        shared_bytes(off_buffer, item_len, slots) % 4096 == 0,
        off_buffer + item_len * slots <= shared_bytes(off_buffer, item_len, slots),
        shared_bytes(off_buffer, item_len, slots) < off_buffer + item_len * slots + 4096,
{
    let n = off_buffer + item_len * slots;
    assert(shared_bytes(off_buffer, item_len, slots) == (n + 4095) / 4096 * 4096);
}

/// A dock is found by its number.
pub proof fn law_dock_is_found_exactly(list: Seq<Dock>, id: usize, from: int)
    requires
        0 <= from,
    ensures
        dock::place_of(list, id, from) matches Some(i) ==> from <= i < list.len()
            && list[i].number() == id && forall|j: int|
            from <= j < i ==> (#[trigger] list[j]).number() != id,
        dock::place_of(list, id, from) is None ==> forall|j: int|
            from <= j < list.len() ==> (#[trigger] list[j]).number() != id,
    decreases list.len() - from,
{
    if from < list.len() && list[from].number() != id {
        law_dock_is_found_exactly(list, id, from + 1);
    }
}

/// A pier that leaves is one less, never less than none; the last one leaves a live dock
/// hanging if nobody stands on the quay.
pub proof fn law_last_pier_leaves_it_hanging(s: DockShared)
    ensures
        dock::pier_left(s).pier_count == (if s.pier_count == 0 {
            0int
        } else {
            s.pier_count - 1
        }),
        dock::pier_left(s).quay == s.quay,
        s.state is Live && !s.quay && s.pier_count <= 1 ==> dock::pier_left(s).state is Hang,
        !(s.state is Live) || s.quay || s.pier_count > 1 ==> dock::pier_left(s).state == s.state,
{
}

/// Who leaves the quay leaves a dead dock, unless it was over before.
pub proof fn law_left_quay_kills(s: DockShared)
    ensures
        !dock::quay_left(s).quay,
        dock::quay_left(s).pier_count == s.pier_count,
        s.state is Live || s.state is Hang ==> dock::quay_left(s).state is Dead,
        !(s.state is Live || s.state is Hang) ==> dock::quay_left(s).state == s.state,
{
}

/// Who lets go of a dock leaves what it held, the pier, the quay or both, and is a holder less.
pub proof fn law_letting_go_of_a_dock(meta: DockMeta, id: usize)
    requires
        meta.holders > 0,
        meta.shared.state is Live,
        meta.shared.pier_count > 0,
    ensures
        ({
            let p = dock::released(meta, Dock::Pier { dock: id });
            let q = dock::released(meta, Dock::Quay { dock: id });
            let b = dock::released(meta, Dock::Bundle { dock: id });
            &&& p.holders == meta.holders - 1 && q.holders == meta.holders - 1 && b.holders
                == meta.holders - 1
            &&& p.shared.pier_count == meta.shared.pier_count - 1
            &&& p.shared.quay == meta.shared.quay
            &&& meta.shared.quay || meta.shared.pier_count > 1 ==> p.shared.state is Live
            &&& !meta.shared.quay && meta.shared.pier_count == 1 ==> p.shared.state is Hang
            &&& q.shared.pier_count == meta.shared.pier_count
            &&& !q.shared.quay && q.shared.state is Dead
            &&& b.shared.pier_count == meta.shared.pier_count - 1
            &&& !b.shared.quay && b.shared.state is Dead
        }),
{
}

/// A new dock lives, with one pier and somebody on the quay.
pub proof fn law_new_dock_has_both_sides(id: usize, item_len: usize, slots: usize, holders: usize)
    ensures
        ({
            let d = dock::fresh_dock(id, item_len, slots, holders);
            &&& d.id == id
            &&& d.holders == holders
            &&& d.shared.state is Live
            &&& d.shared.pier_count == 1
            &&& d.shared.quay
            &&& d.shared.item_len == item_len
            &&& d.shared.slots == slots
        }),
{
}

/// A dock is approached at the pier, side 0, or at the quay, side 1; the quay is for one.
pub proof fn law_who_may_approach_a_dock(
    docks: Docks,
    id: usize,
    side: usize,
    view: Result<usize, MapError>,
)
    ensures
        ({
            let held = docks.metas@.contains_key(id) && docks.metas@[id].holders > 0;
            let taken = docks.metas@[id].shared.quay;
            &&& dock::objection(docks, id, side, view) is None <==> held && view is Ok && (side == 0
                || (side == 1 && !taken))
            &&& dock::objection(docks, id, side, view) == Some(DockError::Busy) <==> held && side
                == 1 && taken
            &&& dock::objection(docks, id, side, view) == Some(DockError::Dead) <==> !held || (!(
            side == 1 && taken) && (view is Err || side > 1))
        }),
{
}

/// Who joins at the pier is one pier and one holder more; who joins at the quay stands on it
/// and is one holder more.
pub proof fn law_approaching_a_dock(meta: DockMeta, side: usize, joined: bool)
    requires
        meta.shared.pier_count < usize::MAX,
        meta.holders < usize::MAX,
        side <= 1,
    ensures
        ({
            let d = dock::approached(meta, side, joined);
            &&& side == 1 ==> d.shared.quay && d.shared.pier_count == meta.shared.pier_count
            &&& side == 0 ==> d.shared.quay == meta.shared.quay
            &&& side == 0 && joined ==> d.shared.pier_count == meta.shared.pier_count + 1
            &&& !joined ==> d.shared.pier_count == meta.shared.pier_count && d.holders
                == meta.holders
            &&& joined ==> d.holders == meta.holders + 1
            &&& d.shared.state == meta.shared.state
            &&& d.id == meta.id
        }),
{
}

/// Rights can be narrowed to some of those that there are, at least one, and only while the
/// resource lives; each bit that is kept was there before.
pub proof fn law_narrowing_keeps_some_rights(alive: bool, rights: u32, subset: u32, bit: u32)
    requires
        bit < 32,
    ensures
        narrow::objection(alive, rights, subset) == Some(MailError::Dead) <==> !alive,
        narrow::objection(alive, rights, subset) is None ==> alive && subset != 0 && (((subset
            >> bit) & 1) == 1 ==> ((rights >> bit) & 1) == 1),
        alive && ((subset >> bit) & 1) == 1 && ((rights >> bit) & 1) == 0 ==> narrow::objection(
            alive,
            rights,
            subset,
        ) == Some(MailError::Denied),
        alive && subset == 0 ==> narrow::objection(alive, rights, subset) == Some(MailError::Denied),
        alive && rights != 0 ==> narrow::objection(alive, rights, rights) is None,
{
    assert(((subset & rights) == subset && ((subset >> bit) & 1) == 1) ==> ((rights >> bit) & 1)
        == 1) by (bit_vector);
    assert(((subset >> bit) & 1) == 1 && ((rights >> bit) & 1) == 0 ==> (subset & rights)
        != subset) by (bit_vector);
    assert(rights & rights == rights) by (bit_vector);
}

/// A narrowed pie is the same pie with fewer rights: its resource, its kind and who vested it
/// stay.
pub proof fn law_narrowed_is_the_same_pie(a: AnyPie, b: AnyPie, subset: u32)
    requires
        narrow::with_rights(a, b, subset),
    ensures
        a is Hole <==> b is Hole,
        b matches AnyPie::Hole(q) ==> q.rights == subset && q.resource == a->Hole_0.resource
            && q.vestor == a->Hole_0.vestor,
        b matches AnyPie::Pole(q) ==> q.rights == subset && q.resource == a->Pole_0.resource
            && q.vestor == a->Pole_0.vestor,
{
}

/// A vested pie is for the same resource, with the rights that were given, and names who vested
/// it.
pub proof fn law_vested_names_its_vestor(a: AnyPie, b: AnyPie, subset: u32, vestor: usize)
    requires
        copy_of(a, b, subset, vestor),
    ensures
        a is Hole <==> b is Hole,
        b matches AnyPie::Hole(q) ==> q.rights == subset && q.resource == a->Hole_0.resource
            && q.vestor == Some(vestor),
        b matches AnyPie::Pole(q) ==> q.rights == subset && q.resource == a->Pole_0.resource
            && q.vestor == Some(vestor),
{
}

/// Nothing is vested in nobody, in who has ended, or where there is no memory, each refused in
/// its own way.
pub proof fn law_vesting_needs_a_taker(target: Option<Pies>, alive: bool)
    ensures
        obstacle(target, alive) == Some(MailError::Denied) <==> target is None,
        obstacle(target, alive) == Some(MailError::Dead) <==> target is Some && !alive,
        obstacle(target, alive) == Some(MailError::OOM) <==> target is Some && alive
            && !target->0.room,
        obstacle(target, alive) is None <==> target is Some && alive && target->0.room,
{
}

/// The numbers that a program sees: errors are negative and the rights are single bits.
pub proof fn law_numbers_of_the_mail(e: MailError)
    ensures
        -5 <= code_of(e) <= -1,
        e is Denied <==> code_of(e) == -1,
        e is Dead <==> code_of(e) == -2,
        e is Busy <==> code_of(e) == -3,
        e is OOM <==> code_of(e) == -4,
        e is NotAligned <==> code_of(e) == -5,
        R == 1 && W == 2 && G == 4 && GR == 8,
        PTE_R == 2 && PTE_W == 4,
        HOLE_MTU_MAX == 4096,
{
}

/// Pieces of memory hold as many bytes as all of them together, one piece after the other.
pub proof fn law_pieces_add_up(segments: Seq<Segment>, more: Segment)
    ensures
        contents(segments).len() == total(segments),
        contents(segments.push(more)) == contents(segments) + more.bytes@,
        total(segments.push(more)) == total(segments) + more.bytes@.len(),
    decreases segments.len(),
{
    if segments.len() > 0 {
        law_pieces_add_up(segments.drop_last(), more);
    }
    assert(segments.push(more).drop_last() =~= segments);
}

/// Every kind of mailbox that can be waited at has keys of its own kind: a nole's names the nole,
/// a tole's the tole.
pub proof fn law_keys_name_their_owner(n: NoleMeta, t: ToleView)
    ensures
        n.key_spec() == (WakeKey::Nole { id: n.id.0 }),
        t.key_spec() == (WakeKey::Tole { id: t.id }),
{
}

/// A pie is for a resource that lives as long as the resource is known.
pub proof fn law_pie_lives_with_its_resource(p: AnyPie, memo: Memo)
    ensures
        p matches AnyPie::Hole(q) ==> (p.alive_in(memo) <==> memo@.contains_key(q.resource.0)),
        p matches AnyPie::Pole(q) ==> (p.alive_in(memo) <==> memo@.contains_key(q.resource.0)),
{
}

/// A new pole lives, lies where it was said to, is as large as it was said to be, is its
/// owner's and is mapped nowhere.
pub proof fn law_new_pole_is_mapped_nowhere(
    p: PoleMeta,
    payload: Payload,
    base: usize,
    size: usize,
    owner: usize,
)
    ensures
        is_fresh(p, payload, base, size, owner) <==> p.state is Live && p.payload == payload
            && p.base == base && p.size == size && p.owner == owner && p.mappings@.len() == 0,
{
}

/// A place that was made ready and is not used is given back as it was made: in its space, where
/// it lies and as large as the pole.
pub proof fn law_spare_place_goes_back(placed: Option<usize>, space: usize, size: usize)
    ensures
        placed is None ==> spare(placed, space, size) is None,
        placed is Some ==> spare(placed, space, size) is Some,
        spare(placed, space, size) matches Some((s, span)) ==> s == space && placed == Some(span.va)
            && span.size == size,
{
}

/// A port is in reach of a task that runs, has it among its own, and while somebody holds it.
pub proof fn law_port_in_reach(ports: Ports, running: bool, holds: MailHolds, handle: usize)
    ensures
        port::reachable(ports, running, holds, handle) <==> running && (exists|i: int|
            0 <= i < holds.ports@.len() && (#[trigger] holds.ports@[i]).handle == handle)
            && ports.metas@.contains_key(handle) && ports.metas@[handle].holders > 0,
{
    law_port_is_found_exactly(holds.ports@, handle, 0);
}

proof fn lemma_cut_off_keeps_lines(v: RoomView, cells: Seq<Cell>, tole: usize, key: WakeKey)
    requires
        v.sites.contains_key(key),
        v.sites[key].line.len() > 0,
    ensures
        cut_off(v, cells, tole).sites.contains_key(key),
        cut_off(v, cells, tole).sites[key].line == v.sites[key].line,
    decreases cells.len(),
{
    if cells.len() > 0 {
        lemma_cut_off_keeps_lines(v, cells.drop_last(), tole, key);
    }
}

/// Sealing a tole frees everybody who waits at it.
pub proof fn law_sealed_tole_frees_all(v: RoomView, w: RoomView, me: usize, t: ToleView, i: int)
    requires
        cleared_out(v, w, me, t),
        v.sites.contains_key(WakeKey::Tole { id: t.id }),
        0 <= i < v.sites[WakeKey::Tole { id: t.id }].line.len(),
    ensures
        w.tasks[v.sites[WakeKey::Tole { id: t.id }].line[i]].state == TaskState::Starved,
{
    let key = WakeKey::Tole { id: t.id };
    let hads = choose|hads: Seq<bool>|
        w == #[trigger] wiped(cut_off(v, t.cells, t.id), me, t.key_spec(), hads);
    let u = cut_off(v, t.cells, t.id);
    lemma_cut_off_keeps_lines(v, t.cells, t.id, key);
    let k = knocked_all(cleared(u, key), me, u.sites[key].fwd, hads);
    lemma_released_stay_ready(k, me, u.sites[key].line);
    assert(u.sites[key].line[i] == v.sites[key].line[i]);
}

/// Telling that something has come wakes who waits for it: the first in line is ready and the
/// others move up; where nobody waits at a site that is there a beacon stands.
pub proof fn law_telling_wakes_the_first(
    v: RoomView,
    w: RoomView,
    me: usize,
    key: WakeKey,
    life: usize,
)
    requires
        told(v, w, me, key, life),
        !(key is Tole),
        v.lives.contains(life),
        v.sites.contains_key(key),
        v.lives.contains(v.sites[key].life),
    ensures
        v.sites[key].line.len() > 0 ==> w.tasks[v.sites[key].line[0]].state == TaskState::Starved,
        v.sites[key].line.len() > 1 ==> w.sites.contains_key(key) && w.sites[key].line
            == v.sites[key].line.drop_first(),
        v.sites[key].line.len() == 0 ==> w.sites.contains_key(key) && w.sites[key].pend,
{
    let (had, hads) = choose|had: bool, hads: Seq<bool>|
        w == #[trigger] woken(v, me, key, life, had, hads);
    if v.sites[key].line.len() > 0 {
        law_wake_serves_the_first(v, me, key, life, had, hads);
    } else {
        law_wake_leaves_beacon(v, me, key, life, hads);
        assert(woken(v, me, key, life, had, hads) == woken(v, me, key, life, true, hads));
    }
}

/// A nole that is gone leaves nobody waiting and no life behind.
pub proof fn law_gone_nole_leaves_nobody(
    v: RoomView,
    w: RoomView,
    me: usize,
    n: NoleMeta,
    i: int,
    other: usize,
)
    requires
        gone(v, w, me, n.key_spec(), n.life),
        other != n.life,
    ensures
        ({
            let key = WakeKey::Nole { id: n.id.0 };
            &&& !w.lives.contains(n.life)
            &&& w.lives.contains(other) == v.lives.contains(other)
            &&& !w.sites.contains_key(key)
            &&& v.sites.contains_key(key) && 0 <= i < v.sites[key].line.len()
                ==> w.tasks[v.sites[key].line[i]].state == TaskState::Starved
        }),
{
    let key = WakeKey::Nole { id: n.id.0 };
    let hads = choose|hads: Seq<bool>|
        w == (RoomView {
            lives: (#[trigger] wiped(v, me, key, hads)).lives.remove(n.life),
            ..wiped(v, me, key, hads)
        });
    lemma_wipe_frees(v, me, key, hads, key);
}

} // verus!
