//! Mail between tasks: holes, noles, toles, poles, ports, rings, docks and pies.
use sqware::mail::dock::{self, Dock, DockAbi, DockError, DockShared, DockState, Docks, PIER, QUAY};
use sqware::mail::hole::{self, HoleMeta};
use sqware::mail::memo::{Memo, Meta, ResourceId};
use sqware::mail::narrow;
use sqware::mail::nole::{self, NoleMeta};
use sqware::mail::pie::{self, AnyPie, G, GR, Hole, MailError, Pie, PieKind, Pole, R, W};
use sqware::mail::pole::{self, Lent, Payload, PoleMeta};
use sqware::mail::port::{self, PortError, Ports};
use sqware::mail::resource_table::ResourceTable;
use sqware::mail::restrict;
use sqware::mail::ring::{self, RingAbi, RingError, RingState, Rings};
use sqware::mail::tole;
use sqware::mail::vest::{self, Pies};
use sqware::mail::void::{self, VoidMeta};
use sqware::mail::{self, MailHolds, PTE_R, PTE_W, Segment};
use sqware::room::Room;
use sqware::room::boot::{self, Desk};
use sqware::room::messenger::handoff::{GateError, Handoff};
use sqware::room::messenger::wait::site::{HoleDir, WakeKey};
use sqware::room::scheduler::{fetch, table};
use sqware::task::{MapError, PAGE_SIZE};
use sqware::unit::task::{Span, TaskIdent, TaskState};

const LIFE: usize = 1;

/// A room with one hart, on which the first of `n` tasks runs.
fn room_of(n: usize) -> Room {
    let mut room = boot::open(&vec![Desk { edge: 0x9000, anchor: 0xA000 }]);
    for life in LIFE..LIFE + 8 {
        boot::born(&mut room, life);
    }
    boot::found(&mut room, 0, None, 100);
    for id in 1..=n {
        let span = Span { va: 0x1000 * id, size: 0x1000 };
        let ident = TaskIdent {
            id,
            team: 0,
            space: 100,
            kernel: false,
            frame: 0x1000 * id,
            stack: span,
            trap: span,
        };
        table::enlist(&mut room, ident);
        boot::sign_up(&mut room, 0, id);
        boot::let_go(&mut room, 0, id);
    }
    fetch::fetch(&mut room, 0, false);
    room
}

fn state(room: &Room, id: usize) -> TaskState {
    room.tasks.get(id).unwrap().state
}

fn hole_of(next: &mut usize) -> HoleMeta {
    hole::meta(next, LIFE, 5, "inbox")
}

fn memo_with(ids: usize) -> Memo {
    let mut m = Memo::new();
    for i in 0..ids {
        let id = m.allocate_id();
        m.insert(id, Meta::Hole(i));
    }
    m
}

#[test]
fn a_message_is_taken_as_it_was_put() {
    let mut room = room_of(1);
    let mut next = 7usize;
    let mut h = hole_of(&mut next);
    assert_eq!((next, h.id().0, h.life(), h.owner(), h.mark()), (8, 7, LIFE, 5, "inbox"));
    assert_eq!(hole::peek(&h), Err(GateError::Busy));
    let mut msg = vec![1u8, 2, 3];
    assert_eq!(hole::try_push(&mut room, 0, &mut h, &mut msg, 9), Ok(()));
    assert!(msg.is_empty());
    assert_eq!(hole::peek(&h), Ok((3, 9)));
    assert!(h.ready(HoleDir::Pull));
    assert!(!h.ready(HoleDir::Push));
    let mut more = vec![4u8];
    assert_eq!(hole::try_push(&mut room, 0, &mut h, &mut more, 9), Err(GateError::Busy));
    assert_eq!(more, vec![4]);
    assert_eq!(hole::try_take(&mut room, 0, &mut h, 2), Err(GateError::Denied));
    assert_eq!(hole::try_take(&mut room, 0, &mut h, 3), Ok((vec![1, 2, 3], 9)));
    assert_eq!(hole::try_take(&mut room, 0, &mut h, 3), Err(GateError::Busy));
    assert_eq!(hole::try_push(&mut room, 0, &mut h, &mut vec![], 9), Err(GateError::Denied));
}

#[test]
fn a_message_wakes_the_one_that_waits_for_it() {
    let mut room = room_of(2);
    let mut next = 0usize;
    let mut h = hole_of(&mut next);
    assert_eq!(
        hole::wait(&mut room, 0, &h, HoleDir::Push, None, 1000),
        Ok(Handoff::Resume(true))
    );
    assert_eq!(
        hole::wait(&mut room, 0, &h, HoleDir::Pull, Some(0), 1000),
        Ok(Handoff::Resume(false))
    );
    assert_eq!(
        hole::wait(&mut room, 0, &h, HoleDir::Pull, None, 1000),
        Ok(Handoff::Switch(0x2000))
    );
    hole::try_push(&mut room, 0, &mut h, &mut vec![1], 2).unwrap();
    assert_eq!(state(&room, 1), TaskState::Starved);
    assert_ne!(hole::key(&h, HoleDir::Pull), hole::key(&h, HoleDir::Push));
    assert_eq!(hole::look_again(Ok(Handoff::Resume(())), false), Ok(Handoff::Resume(false)));
    assert_eq!(hole::look_again(Err(GateError::OoM), true), Err(GateError::OoM));
}

#[test]
fn a_sealed_hole_is_dead_and_lets_everybody_go() {
    let mut room = room_of(2);
    let mut next = 0usize;
    let mut h = hole_of(&mut next);
    hole::wait(&mut room, 0, &h, HoleDir::Pull, None, 1000).unwrap();
    hole::seal(&mut room, 0, &mut h);
    assert!(!h.alive());
    assert_eq!(state(&room, 1), TaskState::Starved);
    assert_eq!(hole::peek(&h), Err(GateError::Dead));
    assert_eq!(hole::try_push(&mut room, 0, &mut h, &mut vec![1], 2), Err(GateError::Dead));
    assert_eq!(hole::try_take(&mut room, 0, &mut h, 9), Err(GateError::Dead));
    assert_eq!(
        hole::wait(&mut room, 0, &h, HoleDir::Pull, None, 1000),
        Err(GateError::Dead)
    );
    hole::retire(&mut room, 0, h);
    assert!(!room.lives.contains(LIFE));
}

#[test]
fn a_bell_rings_until_it_is_hushed() {
    let mut room = room_of(2);
    let mut next = 3usize;
    let mut n = NoleMeta::new(&mut next, LIFE, 5);
    assert_eq!((n.id().0, n.life(), n.owner()), (3, LIFE, 5));
    assert_eq!(nole::hush(&mut n), Err(GateError::Busy));
    assert_eq!(nole::wait(&mut room, 0, &n, Some(0), 1000), Ok(Handoff::Resume(false)));
    assert_eq!(nole::wait(&mut room, 0, &n, None, 1000), Ok(Handoff::Switch(0x2000)));
    assert_eq!(nole::ring(&mut room, 0, &mut n), Ok(()));
    assert_eq!(state(&room, 1), TaskState::Starved);
    assert!(n.ready());
    assert_eq!(nole::ring(&mut room, 0, &mut n), Err(GateError::Busy));
    assert_eq!(nole::wait(&mut room, 0, &n, None, 1000), Ok(Handoff::Resume(true)));
    assert_eq!(nole::hush(&mut n), Ok(()));
    assert!(!n.ready());
    nole::seal(&mut room, 0, &mut n);
    assert!(!n.alive());
    assert_eq!(nole::ring(&mut room, 0, &mut n), Err(GateError::Dead));
    assert_eq!(nole::wait(&mut room, 0, &n, None, 1000), Err(GateError::Dead));
    nole::retire(&mut room, 0, n);
    assert!(!room.lives.contains(LIFE));
}

#[test]
fn a_tole_hears_of_every_hole_that_hangs_at_it() {
    let mut room = room_of(2);
    let mut next = 0usize;
    let mut a = hole_of(&mut next);
    let b = hole::meta(&mut next, LIFE + 1, 5, "other");
    let mut ids = 9usize;
    let mut t = tole::meta(&mut ids, LIFE + 2, 5);
    assert_eq!((t.id().0, t.life(), t.owner(), t.alive()), (9, LIFE + 2, 5, true));
    assert_eq!(
        tole::hang(&mut room, 0, &mut t, &a, HoleDir::Pull, false),
        Err(GateError::OoM)
    );
    assert_eq!(tole::hang(&mut room, 0, &mut t, &a, HoleDir::Pull, true), Ok(()));
    assert_eq!(tole::hang(&mut room, 0, &mut t, &a, HoleDir::Pull, true), Ok(()));
    assert_eq!(tole::hang(&mut room, 0, &mut t, &b, HoleDir::Push, true), Ok(()));
    let shown: Vec<(usize, HoleDir)> =
        t.cells(&room, true).iter().map(|c| (c.hole(), c.dir())).collect();
    assert_eq!(shown, vec![(0, HoleDir::Pull), (1, HoleDir::Push)]);
    assert!(t.cells(&room, false).is_empty());
    assert_eq!(tole::wait_tole(&mut room, 0, &t, None, 1000), Ok(Handoff::Resume(())));
    assert_eq!(tole::wait_tole(&mut room, 0, &t, None, 1000), Ok(Handoff::Switch(0x2000)));
    hole::try_push(&mut room, 0, &mut a, &mut vec![1], 2).unwrap();
    assert_eq!(state(&room, 1), TaskState::Starved);
    boot::expire(&mut room, LIFE + 1);
    assert_eq!(t.cells(&room, true).len(), 1);
    assert!(!t.cells[1].live(&room));
    assert_eq!(tole::unhang(&mut room, &mut t, &a, HoleDir::Pull), Ok(()));
    assert_eq!(t.cells.len(), 1);
    assert_eq!(t.cells[0].hole(), 1);
}

#[test]
fn a_sealed_tole_has_nothing_left() {
    let mut room = room_of(1);
    let mut next = 0usize;
    let a = hole_of(&mut next);
    let mut ids = 4usize;
    let mut t = tole::meta(&mut ids, LIFE + 2, 5);
    tole::hang(&mut room, 0, &mut t, &a, HoleDir::Pull, true).unwrap();
    assert_eq!(tole::key(&t), WakeKey::Tole { id: 4 });
    tole::seal(&mut room, 0, &mut t);
    assert!(!t.alive());
    assert!(t.cells.is_empty());
    assert!(!room.sites.contains(hole::key(&a, HoleDir::Pull)));
    assert_eq!(
        tole::hang(&mut room, 0, &mut t, &a, HoleDir::Pull, true),
        Err(GateError::Dead)
    );
    assert_eq!(tole::unhang(&mut room, &mut t, &a, HoleDir::Pull), Err(GateError::Dead));
    assert_eq!(tole::wait_tole(&mut room, 0, &t, None, 1000), Err(GateError::Dead));
    tole::retire(&mut room, 0, t);
    assert!(!room.lives.contains(LIFE + 2));
}

#[test]
fn numbers_are_handed_out_in_order() {
    let mut n = 5usize;
    assert_eq!(hole::allocate_id(&mut n).0, 5);
    assert_eq!(nole::allocate_id(&mut n).0, 6);
    assert_eq!(tole::allocate_id(&mut n).0, 7);
    assert_eq!(pie::next_pie_idx(&mut n), 8);
    assert_eq!(n, 9);
}

#[test]
fn a_pole_is_made_of_whole_pages() {
    assert_eq!(PoleMeta::allocate(0, 1, Some(8)).err(), Some(GateError::NotAligned));
    assert_eq!(PoleMeta::allocate(100, 1, Some(8)).err(), Some(GateError::NotAligned));
    assert_eq!(pole::meta(PAGE_SIZE, 1, None).err(), Some(GateError::OoM));
    let p = pole::meta(2 * PAGE_SIZE, 1, Some(0x8000)).ok().unwrap();
    assert_eq!((p.base, p.size, p.owner(), p.payload), (0x8000, 8192, 1, Payload::Frames));
    let r = pole::region(0x1_0010, 0x20, 2).ok().unwrap();
    assert_eq!((r.base, r.size, r.payload), (0x1_0000, PAGE_SIZE, Payload::Region));
    let r = PoleMeta::region(0x1_0ff0, 0x20, 2).ok().unwrap();
    assert_eq!((r.base, r.size), (0x1_0000, 2 * PAGE_SIZE));
    assert_eq!(pole::region(0x1_0000, 0, 2).err(), Some(GateError::NotAligned));
    assert_eq!(pole::region(0x10, 0x20, 2).err(), Some(GateError::NotAligned));
    assert_eq!(pole::region(usize::MAX, 2, 2).err(), Some(GateError::NotAligned));
}

#[test]
fn shutting_undoes_opening() {
    let mut p = pole::meta(PAGE_SIZE, 1, Some(0x8000)).ok().unwrap();
    let o = pole::open(&mut p, 3, 100, None, true);
    assert_eq!((o.r, o.undo), (Err(GateError::OoM), None));
    let o = pole::open(&mut p, 3, 100, Some(0x7000), false);
    let span = Span { va: 0x7000, size: PAGE_SIZE };
    assert_eq!((o.r, o.undo), (Err(GateError::OoM), Some((100, span))));
    assert!(p.mappings.is_empty());
    let o = pole::open(&mut p, 3, 100, Some(0x7000), true);
    assert_eq!((o.r, o.undo), (Ok((0x7000, PAGE_SIZE)), None));
    let o = pole::open(&mut p, 3, 100, Some(0x9000), true);
    assert_eq!(o.r, Ok((0x7000, PAGE_SIZE)));
    let spare = Span { va: 0x9000, size: PAGE_SIZE };
    assert_eq!(o.undo, Some((100, spare)));
    assert_eq!(p.mappings.len(), 1);
    assert_eq!(pole::open(&mut p, 3, 100, None, true).undo, None);
    assert_eq!(p.target(3, true), Some(Lent { token: 3, space: 100, span }));
    assert_eq!(p.target(3, false), None);
    assert_eq!(pole::narrow(&p, 3, true, true), Ok(()));
    assert_eq!(pole::narrow(&p, 3, true, false), Err(GateError::Denied));
    assert_eq!(pole::narrow(&p, 4, true, false), Ok(()));
    assert_eq!(pole::shut(&mut p, 3, true, true), Ok(()));
    assert!(p.mappings.is_empty());
    assert_eq!(pole::shut(&mut p, 3, true, true), Ok(()));
}

#[test]
fn a_sealed_pole_opens_no_more() {
    let mut p = pole::meta(PAGE_SIZE, 1, Some(0x8000)).ok().unwrap();
    pole::open(&mut p, 3, 100, Some(0x7000), true);
    pole::seal(&mut p);
    assert!(!p.alive());
    let o = pole::open(&mut p, 4, 100, Some(0x9000), true);
    assert_eq!(o.r, Err(GateError::Dead));
    assert_eq!(o.undo, Some((100, Span { va: 0x9000, size: PAGE_SIZE })));
    assert_eq!(pole::narrow(&p, 3, true, true), Err(GateError::Dead));
    assert_eq!(pole::shut(&mut p, 3, true, false), Err(GateError::Denied));
    let mut q = pole::meta(PAGE_SIZE, 1, Some(0x8000)).ok().unwrap();
    pole::open(&mut q, 3, 100, Some(0x7000), true);
    let (lent, frames) = q.retire();
    assert_eq!(lent.len(), 1);
    assert!(frames);
    assert!(!q.alive());
}

#[test]
fn a_port_gives_back_what_was_pushed() {
    let mut ports = Ports::new();
    let mut a = MailHolds::new();
    let mut b = MailHolds::new();
    let (handle, key) = port::open(&mut ports, &mut a);
    assert_eq!((handle, key), (0, 0));
    assert_eq!(port::join(&mut ports, &mut b, handle), Ok(key));
    assert_eq!(port::join(&mut ports, &mut b, 77), Err(PortError::Dead));
    let msg = [7u8; 64];
    assert_eq!(port::try_pull(&mut ports, true, &b, handle), Err(PortError::Busy));
    assert_eq!(port::try_push(&mut ports, true, &a, handle, msg), Ok(()));
    assert_eq!(port::try_push(&mut ports, true, &a, handle, msg), Err(PortError::Busy));
    assert_eq!(port::try_pull(&mut ports, true, &b, handle), Ok(msg));
    assert_eq!(port::try_push(&mut ports, false, &a, handle, msg), Err(PortError::Dead));
    assert!(port::shut(&mut ports, true, &mut b, handle));
    assert!(!port::shut(&mut ports, true, &mut b, handle));
    assert_eq!(port::try_pull(&mut ports, true, &b, handle), Err(PortError::Dead));
    assert!(!port::shut(&mut ports, false, &mut a, handle));
    assert!(port::shut(&mut ports, true, &mut a, handle));
    assert_eq!(port::join(&mut ports, &mut b, handle), Err(PortError::Dead));
}

#[test]
fn a_ring_has_a_power_of_two_of_slots() {
    for n in [1usize, 2, 64, 1 << 20] {
        assert!(ring::power_of_two(n));
    }
    for n in [0usize, 3, 6, 65] {
        assert!(!ring::power_of_two(n));
    }
    assert_eq!(ring::measure(64, 16, 4), Ok(4096));
    assert_eq!(ring::measure(64, 1024, 4), Ok(8192));
    assert_eq!(ring::measure(64, 0, 4), Err(MapError::NotAligned));
    assert_eq!(ring::measure(64, 16, 3), Err(MapError::NotAligned));
}

#[test]
fn a_ring_dies_with_any_of_its_holders() {
    let abi = RingAbi { live: 1, dead: 2, err_dead: -9, off_buffer: 64 };
    assert_eq!(RingState::Live.code(&abi), 1);
    assert_eq!(RingState::Dead.code(&abi), 2);
    assert_eq!(RingError::Dead.code(&abi), -9);
    let mut rings = Rings::new();
    let mut a = MailHolds::new();
    let mut b = MailHolds::new();
    let none: Result<(), MapError> = Err(MapError::OutOfMemory);
    assert_eq!(
        ring::open(&mut rings, &mut a, 8, 3, Ok(()), Ok(1)),
        Err(MapError::NotAligned)
    );
    assert_eq!(ring::open(&mut rings, &mut a, 8, 4, none, Ok(1)), Err(MapError::OutOfMemory));
    assert_eq!(ring::open(&mut rings, &mut a, 8, 4, Ok(()), Ok(0x5000)), Ok((1, 0x5000)));
    assert_eq!(
        ring::open(&mut rings, &mut a, 8, 4, Ok(()), Err(MapError::NoRegion)),
        Err(MapError::NoRegion)
    );
    assert_eq!(ring::join(&mut rings, &mut b, 1, Ok(0x6000)), Ok(0x6000));
    assert_eq!(ring::join(&mut rings, &mut b, 2, Ok(0x6000)), Err(RingError::Dead));
    assert_eq!(
        ring::join(&mut rings, &mut b, 1, Err(MapError::NoRegion)),
        Err(RingError::Dead)
    );
    assert_eq!(b.rings[0].id(), 1);
    assert!(ring::shut(&mut rings, true, &mut b, 1));
    assert_eq!(rings.metas.get(1).unwrap().shared.state, RingState::Dead);
    assert!(!ring::shut(&mut rings, true, &mut b, 1));
}

#[test]
fn a_dock_has_one_quay() {
    let abi = DockAbi {
        live: 1,
        hang: 2,
        gone: 3,
        dead: 4,
        err_dead: -1,
        err_busy: -2,
        off_buffer: 64,
    };
    assert_eq!(DockState::Hang.code(&abi), 2);
    assert_eq!(DockState::Gone.code(&abi), 3);
    assert_eq!((DockError::Dead.code(&abi), DockError::Busy.code(&abi)), (-1, -2));
    let mut docks = Docks::new();
    let mut a = MailHolds::new();
    let mut b = MailHolds::new();
    assert_eq!(
        dock::open(&mut docks, &mut a, 0, 4, Ok(()), Ok(1)),
        Err(MapError::NotAligned)
    );
    assert_eq!(dock::open(&mut docks, &mut a, 8, 4, Ok(()), Ok(0x5000)), Ok((1, 0x5000)));
    assert_eq!(docks.metas.get(1).unwrap().shared.pier_count, 1);
    assert_eq!(dock::join(&mut docks, &mut b, 1, QUAY, Ok(0x6000)), Err(DockError::Busy));
    assert_eq!(dock::join(&mut docks, &mut b, 1, PIER, Ok(0x6000)), Ok(0x6000));
    assert_eq!(docks.metas.get(1).unwrap().shared.pier_count, 2);
    assert_eq!(dock::join(&mut docks, &mut b, 1, 2, Ok(0x6000)), Err(DockError::Dead));
    assert_eq!(dock::join(&mut docks, &mut b, 9, PIER, Ok(0x6000)), Err(DockError::Dead));
    assert_eq!(b.docks, vec![Dock::Pier { dock: 1 }]);
    assert_eq!(b.docks[0].id(), 1);
    assert!(dock::shut(&mut docks, true, &mut a, 1));
    assert_eq!(docks.metas.get(1).unwrap().shared.state, DockState::Dead);
    assert!(!docks.metas.get(1).unwrap().shared.quay);
    assert_eq!(docks.metas.get(1).unwrap().shared.pier_count, 1);
    assert_eq!(dock::join(&mut docks, &mut a, 1, QUAY, Ok(0x7000)), Ok(0x7000));
    assert!(!dock::shut(&mut docks, false, &mut b, 1));
}

#[test]
fn a_dock_hangs_when_the_last_pier_leaves_it() {
    let mut s = DockShared::init_layout(8, 4);
    assert_eq!((s.state, s.pier_count, s.quay), (DockState::Live, 1, true));
    s.pier_count = 2;
    s.quay = false;
    assert_eq!(s.dec_pier(), 1);
    assert_eq!(s.state, DockState::Live);
    assert_eq!(s.dec_pier(), 0);
    assert_eq!(s.state, DockState::Hang);
    assert_eq!(s.dec_pier(), 0);
    assert_eq!(s.pier_count, 0);
    s.clear_quay();
    assert_eq!(s.state, DockState::Dead);
}

#[test]
fn rights_only_shrink() {
    let memo = memo_with(2);
    let mut p: Pie<Hole> = Pie::new(ResourceId(1), R | W, None);
    assert_eq!(p.rights(), 3);
    assert!(p.alive(&memo));
    assert_eq!(narrow::set_perm(&mut p, &memo, 0), Err(MailError::Denied));
    assert_eq!(narrow::set_perm(&mut p, &memo, R | G), Err(MailError::Denied));
    assert_eq!(narrow::set_perm(&mut p, &memo, R), Ok(()));
    assert_eq!(narrow::set_perm(&mut p, &memo, W), Err(MailError::Denied));
    let mut any = AnyPie::Hole(Pie::new(ResourceId(2), R | W | G | GR, None));
    assert_eq!(narrow::narrow(&mut any, &memo, R | GR), Ok(()));
    assert_eq!(any.rights(), R | GR);
    assert_eq!(restrict::restrict(&mut any, &memo, GR), Ok(()));
    assert_eq!(any.rights(), GR);
    let mut gone = AnyPie::Pole(Pie::<Pole>::new(ResourceId(9), R, None));
    assert_eq!(narrow::narrow(&mut gone, &memo, R), Err(MailError::Dead));
    assert_eq!(restrict::restrict(&mut gone, &memo, R), Err(MailError::Dead));
}

#[test]
fn a_vested_pie_names_its_vestor() {
    let memo = memo_with(1);
    let src = AnyPie::Hole(Pie::new(ResourceId(1), R | W, None));
    let mut none: Option<Pies> = None;
    assert_eq!(vest::vest(&src, &memo, &mut none, R, 4), Err(MailError::Denied));
    let mut full = Some(Pies { list: Vec::new(), room: false });
    assert_eq!(vest::vest(&src, &memo, &mut full, R, 4), Err(MailError::OOM));
    let mut target = Some(Pies { list: Vec::new(), room: true });
    assert_eq!(vest::vest(&src, &memo, &mut target, R, 4), Ok(0));
    assert_eq!(vest::vest(&src, &memo, &mut target, W, 4), Ok(1));
    let list = target.unwrap().list;
    assert_eq!(list[0].kind(), PieKind::Hole);
    assert_eq!(list[0].resource(), ResourceId(1));
    assert_eq!((list[0].rights(), list[1].rights()), (R, W));
    match &list[0] {
        AnyPie::Hole(p) => assert_eq!(p.vestor, Some(4)),
        AnyPie::Pole(_) => panic!("the kind changed"),
    }
    let dead = AnyPie::Hole(Pie::new(ResourceId(5), R, None));
    assert!(!dead.alive(&memo));
    let mut target = Some(Pies { list: Vec::new(), room: true });
    assert_eq!(vest::vest(&dead, &memo, &mut target, R, 4), Err(MailError::Dead));
}

#[test]
fn errors_have_numbers_of_their_own() {
    let codes = [
        MailError::Denied.code(),
        MailError::Dead.code(),
        MailError::Busy.code(),
        MailError::OOM.code(),
        MailError::NotAligned.code(),
    ];
    assert_eq!(codes, [-1, -2, -3, -4, -5]);
}

#[test]
fn a_memo_remembers_until_it_is_told_to_forget() {
    let mut m = Memo::new();
    let a = m.allocate_id();
    let b = m.allocate_id();
    assert_eq!((a, b), (ResourceId(1), ResourceId(2)));
    m.insert(a, Meta::Hole(3));
    m.insert(b, Meta::Pole(4));
    assert_eq!(m.lookup(a), Some(Meta::Hole(3)));
    assert_eq!(m.lookup(b).unwrap().kind(), PieKind::Pole);
    assert!(m.contains(a));
    m.remove(a);
    assert_eq!(m.lookup(a), None);
    assert!(!m.contains(a));
    assert!(m.contains(b));
}

#[test]
fn a_resource_table_keeps_the_kinds_apart() {
    let mut t = ResourceTable::new();
    let a = t.allocate_id();
    let b = t.allocate_id();
    t.insert_hole(a, 10);
    t.insert_pole(b, 20);
    assert_eq!(t.lookup_hole(a), Some(10));
    assert_eq!(t.lookup_pole(a), None);
    assert_eq!(t.lookup_pole(b), Some(20));
    t.remove(b, PieKind::Hole);
    assert_eq!(t.lookup_pole(b), Some(20));
    t.remove(b, PieKind::Pole);
    assert_eq!(t.lookup_pole(b), None);
}

#[test]
fn a_void_is_dead_once_sealed() {
    let mut v = VoidMeta::new(6);
    assert_eq!(v.owner(), 6);
    assert!(v.alive());
    void::seal(&mut v);
    assert!(!v.alive());
}

#[test]
fn a_copy_crosses_segments_or_does_nothing() {
    let mut segs = vec![
        Segment { flags: PTE_R | PTE_W, bytes: vec![0, 0] },
        Segment { flags: PTE_W | PTE_R, bytes: vec![0, 0, 0] },
    ];
    assert!(mail::whole(&segs, 5, PTE_R));
    assert!(!mail::whole(&segs, 4, PTE_R));
    assert!(mail::whole(&segs, 5, PTE_R | PTE_W));
    let read_only = vec![Segment { flags: PTE_R, bytes: vec![0, 0] }];
    assert!(mail::whole(&read_only, 2, PTE_R));
    assert!(!mail::whole(&read_only, 2, PTE_R | PTE_W));
    assert!(mail::copy_out(&mut segs, &vec![1, 2, 3, 4, 5]));
    assert_eq!(segs[0].bytes, vec![1, 2]);
    assert_eq!(segs[1].bytes, vec![3, 4, 5]);
    let mut back = vec![0u8; 5];
    assert!(mail::copy_in(&segs, &mut back));
    assert_eq!(back, vec![1, 2, 3, 4, 5]);
    assert!(!mail::copy_out(&mut segs, &vec![9; 4]));
    segs[1].flags = PTE_R;
    assert!(!mail::copy_out(&mut segs, &vec![9; 5]));
    assert_eq!(segs[0].bytes, vec![1, 2]);
    segs[0].flags = PTE_W;
    assert!(!mail::copy_in(&segs, &mut back));
    assert_eq!(back, vec![1, 2, 3, 4, 5]);
}

#[test]
fn authority_only_shrinks_on_its_way() {
    let memo = memo_with(1);
    let first = AnyPie::Hole(Pie::new(ResourceId(1), R | W | G, None));
    let mut second = Some(Pies { list: Vec::new(), room: true });
    assert_eq!(vest::vest(&first, &memo, &mut second, R | W, 4), Ok(0));
    let mut held = second.unwrap().list.pop().unwrap();
    assert_eq!(narrow::narrow(&mut held, &memo, W), Ok(()));
    let mut third = Some(Pies { list: Vec::new(), room: true });
    assert_eq!(vest::vest(&held, &memo, &mut third, W, 5), Ok(0));
    let last = third.unwrap().list.pop().unwrap();
    assert_eq!(last.resource(), first.resource());
    assert_eq!(last.rights() & first.rights(), last.rights());
    assert_eq!(last.rights(), W);
}
