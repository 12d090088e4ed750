//! Tasks in a room: running, waiting, waking and leaving.
use sqware::bits::Ipi;
use sqware::room::Room;
use sqware::room::boot::{self, Desk};
use sqware::room::conductor;
use sqware::room::messenger::doom;
use sqware::room::messenger::handoff::{GateError, Handoff};
use sqware::room::messenger::reap::{self, Leaving, Remains, Rites};
use sqware::room::messenger::wait::clock::{self, MAX_DUE};
use sqware::room::messenger::wait::holder::{self, Ticket};
use sqware::room::messenger::wait::site::{
    FWD_MAX, Fwd, HoleDir, SITE_SHARDS, WakeKey, WakeKind, site_shard,
};
use sqware::room::messenger::wait::{self};
use sqware::room::messenger::{self, EXIT_CASCADE, EXIT_DOOM, EXIT_FAULT};
use sqware::room::scheduler::beacon::{self, Beacon, Stuck};
use sqware::room::scheduler::fetch::{self, BEACON_TICK, Step, WFI_FAR};
use sqware::room::scheduler::hart::QUANTUM_TICKS;
use sqware::room::scheduler::ident::{Badge, Identity, LastIdent, Payload};
use sqware::room::scheduler::{Tock, table, trap, utask};
use sqware::unit::task::{Span, TaskIdent, TaskState, TaskTag};

const LIFE: usize = 1;

fn ident(id: usize, team: usize) -> TaskIdent {
    TaskIdent {
        id,
        team,
        space: 100 + team,
        kernel: false,
        frame: 0x1000 * id,
        stack: Span { va: 0x10_0000 * id, size: 0x4000 },
        trap: Span { va: 0x10_0000 * id + 0x8000, size: 0x1000 },
    }
}

fn room_of(harts: usize) -> Room {
    let mut desks: Vec<Desk> = Vec::new();
    for h in 0..harts {
        desks.push(Desk { edge: 0x9000 + h, anchor: 0xA000 + h });
    }
    let mut room = boot::open(&desks);
    boot::born(&mut room, LIFE);
    boot::found(&mut room, 0, None, 100);
    room
}

fn add(room: &mut Room, me: usize, id: usize, team: usize) {
    table::enlist(room, ident(id, team));
    boot::sign_up(room, team, id);
    boot::let_go(room, me, id);
}

fn state(room: &Room, id: usize) -> TaskState {
    room.tasks.get(id).unwrap().state
}

/// Ends `tid` on hart `me` and gives everything back; the next frame.
fn settled(room: &mut Room, me: usize, tid: usize) -> Option<usize> {
    let (remains, next) = reap::settle(room, me, tid);
    for r in remains {
        reap::give_back(room, r);
    }
    next
}

fn ready(room: &Room, h: usize) -> Vec<usize> {
    room.lanes[h].ready.ids(&room.tasks)
}

/// A room with one hart on which the first of `n` tasks runs.
fn busy_room(n: usize) -> Room {
    let mut room = room_of(1);
    for id in 1..=n {
        add(&mut room, 0, id, 0);
    }
    assert_eq!(fetch::fetch(&mut room, 0, false), Step::Run(0x1000));
    room
}

#[test]
fn a_hart_takes_up_the_first_that_is_ready() {
    let mut room = room_of(1);
    assert_eq!(fetch::fetch(&mut room, 0, false), Step::Sleep(WFI_FAR));
    assert!(room.score.waiting.test(0));
    add(&mut room, 0, 1, 0);
    assert_eq!(room.outbox, vec![Ipi { mask: 1, base: 0 }]);
    assert_eq!(fetch::rouse(&mut room, 0, 5, false), Step::Run(0x1000));
    assert!(!room.score.waiting.test(0));
    assert_eq!(state(&room, 1), TaskState::Running { ticks_left: QUANTUM_TICKS });
    assert_eq!(room.tasks.get(1).unwrap().words.kernel_sp, 0x9000);
    assert_eq!(room.tasks.get(1).unwrap().tag(), TaskTag::Running);
    assert_eq!(table::running_hart(&room, 1), Some(0));
    assert_eq!(table::running_hart(&room, 2), None);
}

#[test]
fn an_idle_hart_naps_shorter_at_the_end() {
    let mut room = room_of(2);
    table::enlist(&mut room, ident(1, 0));
    assert_eq!(fetch::fetch(&mut room, 1, true), Step::Sleep(BEACON_TICK));
    assert_eq!(fetch::rouse(&mut room, 1, 5, true), Step::Sleep(BEACON_TICK));
}

#[test]
fn every_ready_task_has_its_turn() {
    let mut room = busy_room(4);
    for _ in 0..3 {
        assert_eq!(trap::run(&mut room, 0), Some(0x1000));
    }
    let left = QUANTUM_TICKS as usize - 3;
    for call in 1..left + 3 * QUANTUM_TICKS as usize {
        let turn = if call < left { 0 } else { (call - left) / QUANTUM_TICKS as usize + 1 };
        assert_eq!(trap::run(&mut room, 0), Some(0x1000 * (turn + 1)));
    }
    assert_eq!(trap::run(&mut room, 0), Some(0x1000));
}

#[test]
fn a_quantum_is_over_after_so_many_ticks() {
    let mut room = busy_room(2);
    for _ in 1..QUANTUM_TICKS {
        assert_eq!(trap::run(&mut room, 0), Some(0x1000));
    }
    assert_eq!(trap::run(&mut room, 0), Some(0x2000));
    assert_eq!(ready(&room, 0), vec![1]);
    assert_eq!(utask::starve(&mut room, 0), 0x1000);
    assert_eq!(ready(&room, 0), vec![2]);
    let mut empty = room_of(1);
    assert_eq!(trap::run(&mut empty, 0), None);
}

#[test]
fn a_wake_ends_a_wait() {
    let mut room = busy_room(2);
    let key = WakeKey::Space { space: 100, slot: 8 };
    assert_eq!(utask::wait(&mut room, 0, key, LIFE, None, 1000), Ok(Handoff::Switch(0x2000)));
    assert_eq!(state(&room, 1), TaskState::Blocked { key, ticket: 0 });
    assert_eq!(utask::wait_forever(&mut room, 0, key, LIFE), Ok(Handoff::Idle));
    assert!(utask::wake(&mut room, 0, key, LIFE));
    assert_eq!(state(&room, 1), TaskState::Starved);
    assert_eq!(ready(&room, 0), vec![1]);
    assert!(utask::wake(&mut room, 0, key, LIFE));
    assert_eq!(ready(&room, 0), vec![1, 2]);
    assert!(!room.sites.contains(key));
}

#[test]
fn a_wake_without_a_waiter_leaves_a_beacon_for_one() {
    let mut room = busy_room(1);
    let key = WakeKey::Nole { id: 3 };
    assert!(!wait::wake(&mut room, 0, key, LIFE));
    assert!(!wait::wake(&mut room, 0, key, LIFE));
    assert_eq!(wait::block(&mut room, 0, key, LIFE, None, 1000), Ok(Handoff::Resume(())));
    assert!(!room.sites.contains(key));
    assert_eq!(wait::block(&mut room, 0, key, LIFE, None, 1000), Ok(Handoff::Idle));
}

#[test]
fn a_dead_site_is_dropped() {
    let mut room = busy_room(1);
    let key = WakeKey::Nole { id: 3 };
    wait::wake(&mut room, 0, key, LIFE);
    boot::expire(&mut room, LIFE);
    assert!(!wait::wake(&mut room, 0, key, LIFE));
    assert!(!room.sites.contains(key));
    assert_eq!(wait::block(&mut room, 0, key, LIFE, None, 1000), Ok(Handoff::Idle));
    assert_eq!(ready(&room, 0), vec![1]);
    assert!(!room.sites.contains(key));
}

#[test]
fn a_deadline_ends_a_wait_only_once() {
    let mut room = busy_room(2);
    let key = WakeKey::Nole { id: 3 };
    assert_eq!(
        wait::block(&mut room, 0, key, LIFE, Some(50), 1000),
        Ok(Handoff::Switch(0x2000))
    );
    assert_eq!(messenger::probe_bookkeeping(&room), (1, 0));
    assert_eq!(room.clock.get(0), Some(&1050));
    assert_eq!(clock::next(&room), Some(1050));
    assert_eq!((clock::beat_until(&room, 1049), clock::beat_until(&room, 9000)), (1049, 1050));
    assert!(clock::due(&room, 1049).is_empty());
    let due = clock::due(&room, 1050);
    assert_eq!(due, vec![0]);
    assert!(!wait::redeem_all(&mut room, 0, &vec![7]));
    assert!(!wait::redeem(&mut room, 0, 1049));
    assert!(wait::redeem(&mut room, 0, 1050));
    assert!(!wait::redeem_all(&mut room, 0, &due));
    assert_eq!(ready(&room, 0), vec![1]);
    assert_eq!(messenger::probe_bookkeeping(&room), (0, 0));
    assert_eq!(clock::next(&room), None);
    assert_eq!(clock::beat_until(&room, 9000), 9000);
}

#[test]
fn deadlines_come_due_in_their_order() {
    let mut room = busy_room(4);
    for (id, dur) in [(1, 30), (2, 10), (3, 20)] {
        let key = WakeKey::Alarm { task: id };
        assert_eq!(
            wait::deadline(&room, 500, Some(dur)),
            Some(Tock { handle: id as u64 - 1, at: 500 + dur })
        );
        wait::block(&mut room, 0, key, LIFE, Some(dur), 500).unwrap();
    }
    assert_eq!(wait::deadline(&room, 500, None), None);
    assert_eq!(clock::due(&room, 520), vec![1, 2]);
    assert_eq!(clock::due(&room, 600), vec![1, 2, 0]);
    assert!(wait::redeem(&mut room, 0, 520));
    assert_eq!(ready(&room, 0), vec![2, 3]);
    assert_eq!(clock::next(&room), Some(530));
    assert!(clock::due(&room, 520).is_empty());
}

#[test]
fn so_many_deadlines_are_redeemed_at_one_time() {
    let mut room = busy_room(65);
    for id in 1..=65 {
        wait::block(&mut room, 0, WakeKey::Alarm { task: id }, LIFE, Some(10), 500).unwrap();
    }
    assert_eq!((clock::due(&room, 510).len(), clock::drain(&room, 510).len()), (65, MAX_DUE));
    assert!(wait::redeem(&mut room, 0, 510));
    assert_eq!(ready(&room, 0), (1..=64).collect::<Vec<usize>>());
    assert_eq!(clock::due(&room, 510), vec![64]);
    assert!(wait::redeem(&mut room, 0, 510));
    assert_eq!(ready(&room, 0).len(), 65);
    assert!(!wait::redeem(&mut room, 0, 510));
}

#[test]
fn a_line_goes_on_when_its_last_has_left() {
    let mut room = busy_room(3);
    let key = WakeKey::Nole { id: 3 };
    wait::block(&mut room, 0, key, LIFE, None, 1).unwrap();
    wait::block(&mut room, 0, key, LIFE, None, 1).unwrap();
    assert!(doom::suspend(&mut room, 2, 5));
    wait::block(&mut room, 0, key, LIFE, None, 1).unwrap();
    assert!(wait::wake(&mut room, 0, key, LIFE));
    assert_eq!(ready(&room, 0), vec![1]);
    assert!(wait::wake(&mut room, 0, key, LIFE));
    assert_eq!(ready(&room, 0), vec![1, 3]);
    assert!(!wait::wake(&mut room, 0, key, LIFE));
}

#[test]
fn no_deadline_outlives_its_wait() {
    let key = WakeKey::Nole { id: 3 };
    let mut room = busy_room(2);
    wait::block(&mut room, 0, key, LIFE, Some(5), 1).unwrap();
    assert!(doom::suspend(&mut room, 1, 5));
    assert_eq!(clock::next(&room), None);
    let mut room = busy_room(2);
    wait::block(&mut room, 0, key, LIFE, Some(5), 1).unwrap();
    wait::wipe(&mut room, 0, key);
    assert_eq!(clock::next(&room), None);
    let word = WakeKey::Space { space: 100, slot: 2 };
    let mut room = busy_room(2);
    wait::block(&mut room, 0, word, LIFE, Some(5), 1).unwrap();
    wait::wipe_space(&mut room, 0, 100);
    assert_eq!(clock::next(&room), None);
    let mut room = busy_room(1);
    boot::expire(&mut room, LIFE);
    assert_eq!(wait::block(&mut room, 0, key, LIFE, Some(5), 1), Ok(Handoff::Idle));
    assert_eq!(clock::next(&room), None);
    assert_eq!(ready(&room, 0), vec![1]);
}

#[test]
fn a_wake_takes_the_deadline_off() {
    let mut room = busy_room(2);
    let key = WakeKey::Nole { id: 3 };
    wait::block(&mut room, 0, key, LIFE, Some(50), 1000).unwrap();
    assert!(wait::wake(&mut room, 0, key, LIFE));
    assert_eq!(clock::next(&room), None);
    assert!(!wait::redeem_all(&mut room, 0, &vec![0]));
    assert_eq!(ready(&room, 0), vec![1]);
}

#[test]
fn a_wait_without_means_is_refused() {
    let key = WakeKey::Nole { id: 3 };
    let mut room = room_of(1);
    assert_eq!(wait::block(&mut room, 0, key, LIFE, None, 1000), Err(GateError::Busy));
    let mut room = busy_room(1);
    assert_eq!(
        wait::block_with(&mut room, 0, key, LIFE, Some(9), 1000, true, true, false),
        Err(GateError::OoM)
    );
    assert_eq!(clock::next(&room), None);
    assert_eq!(state(&room, 1), TaskState::Running { ticks_left: QUANTUM_TICKS });
    assert_eq!(messenger::probe_bookkeeping(&room), (0, 0));
    assert_eq!(room.next_ticket, 1);
    let mut room = busy_room(1);
    assert_eq!(
        wait::block_with(&mut room, 0, key, LIFE, None, 1000, false, true, true),
        Err(GateError::OoM)
    );
    assert!(!room.sites.contains(key));
    assert_eq!(
        wait::block_with(&mut room, 0, key, LIFE, Some(4), 1000, true, false, true),
        Err(GateError::OoM)
    );
    assert!(room.sites.contains(key));
}

#[test]
fn tickets_name_those_who_wait() {
    let mut room = busy_room(1);
    let key = WakeKey::Nole { id: 3 };
    let t = Ticket::allocate(&mut room);
    assert_eq!(t.raw(), 0);
    assert_eq!(Ticket::allocate(&mut room), Ticket(1));
    assert!(holder::make_room(&mut room));
    assert_eq!(messenger::probe_bookkeeping(&room), (0, 0));
    holder::hold(&mut room, t, key, 1);
    assert_eq!(messenger::probe_bookkeeping(&room), (1, 0));
    assert!(holder::make_clock_room(&mut room));
    holder::arm(&mut room, t, 77);
    assert_eq!(clock::next(&room), Some(77));
    assert_eq!(holder::void(&mut room, t), Some((key, 1)));
    assert_eq!(clock::next(&room), None);
    assert_eq!(holder::void(&mut room, t), None);
    holder::hold(&mut room, t, key, 77);
    assert_eq!(holder::void(&mut room, t), None);
}

#[test]
fn a_task_sleeps_at_its_own_alarm() {
    let mut room = busy_room(1);
    assert_eq!(utask::park(&mut room, 0, LIFE, Some(10), 1000), Ok(Handoff::Idle));
    assert_eq!(clock::next(&room), Some(1010));
    assert_eq!(
        state(&room, 1),
        TaskState::Blocked { key: WakeKey::Alarm { task: 1 }, ticket: 0 }
    );
    assert_eq!(fetch::rouse(&mut room, 0, 1009, false), Step::Sleep(WFI_FAR));
    assert_eq!(fetch::rouse(&mut room, 0, 1010, false), Step::Run(0x1000));
    let mut empty = room_of(1);
    assert_eq!(wait::park(&mut empty, 0, LIFE, Some(10), 1000), Ok(Handoff::Idle));
}

#[test]
fn a_wake_knocks_at_the_toles_of_its_site() {
    let mut room = busy_room(1);
    let hole = WakeKey::Hole { hole: 5, dir: HoleDir::Pull };
    let tole = WakeKey::Tole { id: 9 };
    assert_eq!(wait::forward(&mut room, hole, LIFE, 9, LIFE), Ok(()));
    assert_eq!(wait::block(&mut room, 0, tole, LIFE, None, 1000), Ok(Handoff::Idle));
    assert!(!wait::wake(&mut room, 0, hole, LIFE));
    assert_eq!(state(&room, 1), TaskState::Starved);
    assert!(room.sites.get(hole).unwrap().pend);
    wait::unforward(&mut room, hole, 9);
    assert!(room.sites.get(hole).unwrap().fwd.is_empty());
    assert_eq!(wait::knock(&mut room, 0, tole, LIFE), (0, true));
    assert_eq!(wait::knock_with(&mut room, 0, WakeKey::Tole { id: 8 }, LIFE, false), 0);
    assert!(room.sites.get(tole).unwrap().pend);
    assert!(!room.sites.contains(WakeKey::Tole { id: 8 }));
}

#[test]
fn so_many_toles_fit_at_a_site() {
    let mut room = room_of(1);
    let key = WakeKey::Hole { hole: 5, dir: HoleDir::Push };
    assert_eq!(wait::forward_with(&mut room, key, LIFE, 0, LIFE, false), Err(()));
    for t in 0..FWD_MAX {
        assert_eq!(wait::forward(&mut room, key, LIFE, t, LIFE), Ok(()));
    }
    assert_eq!(wait::forward(&mut room, key, LIFE, 3, LIFE), Ok(()));
    assert_eq!(wait::forward(&mut room, key, LIFE, FWD_MAX, LIFE), Err(()));
    let mut f = Fwd::empty();
    assert!(f.is_empty());
    assert_eq!(f.attach(4, 1), Ok(()));
    assert_eq!(f.attach(5, 2), Ok(()));
    assert_eq!(f.entries(), vec![(4, 1), (5, 2)]);
    f.detach(4);
    assert_eq!(f.entries(), vec![(5, 2)]);
    f.detach(4);
    assert_eq!(f.entries(), vec![(5, 2)]);
}

#[test]
fn wiping_a_key_leaves_nothing() {
    let mut room = busy_room(3);
    let key = WakeKey::Task { id: 70 };
    wait::block(&mut room, 0, key, LIFE, None, 1000).unwrap();
    wait::block(&mut room, 0, key, LIFE, Some(4), 1000).unwrap();
    assert_eq!(wait::wipe(&mut room, 0, key), 2);
    assert_eq!(ready(&room, 0), vec![1, 2]);
    assert!(!room.sites.contains(key));
    assert_eq!(messenger::probe_bookkeeping(&room), (0, 0));
    assert_eq!(wait::wipe(&mut room, 0, key), 0);
}

#[test]
fn a_space_takes_its_words_along() {
    let mut room = busy_room(4);
    let a = WakeKey::Space { space: 100, slot: 1 };
    let b = WakeKey::Space { space: 100, slot: 2 };
    let c = WakeKey::Space { space: 101, slot: 1 };
    for key in [a, b, c] {
        wait::block(&mut room, 0, key, LIFE, None, 1000).unwrap();
    }
    assert_eq!(wait::wipe_space(&mut room, 0, 100), 2);
    let mut woken = ready(&room, 0);
    woken.sort();
    assert_eq!(woken, vec![1, 2]);
    assert!(room.sites.contains(c));
}

#[test]
fn a_key_always_has_the_same_shard() {
    for id in 0..200usize {
        assert!(site_shard(WakeKey::Task { id }) < SITE_SHARDS);
    }
    assert_eq!(WakeKey::Nole { id: 0 }.fold(), 0);
    assert_eq!(WakeKey::Space { space: 1, slot: 0 }.fold(), 0x9E37_79B9_7F4A_7C15);
    assert_eq!(WakeKey::Space { space: 0, slot: 6 }.fold(), 6);
    assert_eq!(site_shard(WakeKey::Nole { id: 0 }), 0);
    assert_eq!(WakeKey::Pies { task: 1 }.kind(), WakeKind::Pies);
    let all = WakeKind::all();
    assert_eq!(all.len(), 7);
    for (i, k) in all.iter().enumerate() {
        assert_eq!(k.index(), i);
    }
}

#[test]
fn sites_are_counted_by_condition_and_kind() {
    let mut room = busy_room(2);
    wait::block(&mut room, 0, WakeKey::Nole { id: 3 }, LIFE, None, 1000).unwrap();
    boot::born(&mut room, 2);
    wait::wake(&mut room, 0, WakeKey::Task { id: 50 }, 2);
    wait::forward(&mut room, WakeKey::Hole { hole: 4, dir: HoleDir::Pull }, 2, 1, LIFE).unwrap();
    let st = messenger::probe(&room);
    assert_eq!((st.sites, st.live, st.tomb, st.orphan, st.dead, st.waiters), (3, 1, 1, 1, 0, 1));
    let named: Vec<(WakeKind, usize)> = st.kinds().into_iter().filter(|p| p.1 > 0).collect();
    assert_eq!(
        named,
        vec![(WakeKind::Hole, 1), (WakeKind::Nole, 1), (WakeKind::Task, 1)]
    );
    boot::expire(&mut room, 2);
    let st = messenger::probe(&room);
    assert_eq!((st.dead, st.tomb + st.orphan), (2, 2));
}

#[test]
fn who_quits_is_cleared_away_and_joined() {
    let mut room = busy_room(2);
    utask::starve(&mut room, 0);
    assert_eq!(utask::join(&mut room, 0, 9, LIFE, None, 1000), Err(GateError::Denied));
    assert_eq!(utask::join(&mut room, 0, 1, LIFE, Some(0), 1000), Ok(Handoff::Resume(false)));
    assert_eq!(utask::join(&mut room, 0, 1, LIFE, None, 1000), Ok(Handoff::Switch(0x1000)));
    messenger::set_exit_reason(&mut room, 0, 42);
    assert_eq!(utask::reap(&mut room, 0), Leaving { tid: 1, reason: 42 });
    assert_eq!(messenger::take_exit_reason(&mut room, 0), 0);
    assert_eq!(state(&room, 1), TaskState::Doomed);
    let (remains, next) = reap::settle(&mut room, 0, 1);
    let stack = Span { va: 0x10_0000, size: 0x4000 };
    let trap = Span { va: 0x10_8000, size: 0x1000 };
    assert_eq!(remains, vec![Remains { tid: 1, team: 0, space: 100, stack, trap }]);
    assert_eq!(next, None);
    assert_eq!(state(&room, 2), TaskState::Starved);
    assert_eq!(room.teams.get(0).unwrap().tasks, vec![2]);
    assert_eq!(room.score.reaped, 0);
    for r in remains {
        assert_eq!(reap::give_back(&mut room, r), 1);
    }
    assert_eq!(room.score.reaped, 1);
    assert_eq!(fetch::fetch(&mut room, 0, false), Step::Run(0x2000));
    assert_eq!(utask::join(&mut room, 0, 1, LIFE, None, 1000), Ok(Handoff::Resume(true)));
    assert_eq!(table::muster(&room, 1), Some(false));
    assert_eq!(table::muster(&room, 2), Some(true));
    assert_eq!(table::muster(&room, 3), None);
}

#[test]
fn the_last_holder_of_a_space_wakes_its_words() {
    let mut room = busy_room(2);
    let key = WakeKey::Space { space: 100, slot: 4 };
    wait::block(&mut room, 0, key, LIFE, None, 1000).unwrap();
    utask::reap(&mut room, 0);
    boot::count_space(&mut room, 100, 2);
    let mut other = busy_room(2);
    wait::block(&mut other, 0, key, LIFE, None, 1000).unwrap();
    utask::reap(&mut other, 0);
    boot::count_space(&mut other, 100, 1);
    assert_eq!(settled(&mut room, 0, 2), None);
    assert!(ready(&room, 0).is_empty());
    assert_eq!(settled(&mut other, 0, 2), None);
    assert_eq!(ready(&other, 0), vec![1]);
}

#[test]
fn all_is_over_when_everybody_was_cleared_away() {
    let mut room = busy_room(1);
    assert_eq!(room.lanes[0].badge.read(), Some(Identity::Live(ident(1, 0))));
    utask::reap(&mut room, 0);
    settled(&mut room, 0, 1);
    conductor::rooted(&mut room.score);
    assert_eq!(fetch::fetch(&mut room, 0, false), Step::Halt);
    match room.lanes[0].badge.read() {
        Some(Identity::Last(l)) => assert_eq!((l.task, l.team), (1, 0)),
        _ => panic!("the badge keeps the last"),
    }
    room.lanes[0].clear_slot();
    assert_eq!(room.lanes[0].badge.read(), None);
    assert_eq!(table::roster(&room), vec![1]);
    assert!(table::roster_with(&room, None).is_empty());
    assert_eq!(table::roster_live(&room), (1, 0));
    assert_eq!(table::try_reserve_roster(&mut room), Ok(()));
    assert_eq!((table::reserved(true), table::reserved(false)), (Ok(()), Err(())));
    table::rip(&mut room);
    assert!(table::roster(&room).is_empty());
}

#[test]
fn the_living_are_named_up_to_eight() {
    let mut room = room_of(1);
    for id in 1..=10 {
        add(&mut room, 0, id, 0);
    }
    let (more, named) = table::roster_live_ids(&room);
    assert_eq!((more, named.len()), (2, 8));
    assert!(table::remove_from_starved(&mut room, 4));
    assert!(!table::remove_from_starved(&mut room, 4));
    assert_eq!(ready(&room, 0).len(), 9);
}

#[test]
fn stopping_a_task_depends_on_where_it_is() {
    let mut room = busy_room(3);
    let key = WakeKey::Nole { id: 3 };
    wait::block(&mut room, 0, key, LIFE, Some(6), 1000).unwrap();
    table::enlist(&mut room, ident(4, 0));
    assert!(doom::suspend(&mut room, 4, 5));
    assert!(doom::suspend(&mut room, 3, 5));
    assert!(doom::suspend(&mut room, 1, 5));
    assert!(!doom::suspend(&mut room, 2, 5));
    assert_eq!(doom::branch_stats(&room), (1, 1, 1, 1));
    for id in [1, 3, 4] {
        assert_eq!(state(&room, id), TaskState::Doomed);
    }
    assert!(!room.sites.contains(key));
    assert_eq!(messenger::probe_bookkeeping(&room).0, 0);
    assert_eq!(room.pending, 1);
    assert_eq!(room.outbox.last(), Some(&Ipi { mask: 1, base: 0 }));
    assert_eq!(wait::block(&mut room, 0, key, LIFE, None, 1000), Ok(Handoff::Quit));
    assert_eq!(room.pending, 0);
    assert_eq!(utask::reap(&mut room, 0), Leaving { tid: 2, reason: 5 });
    assert!(!doom::suspend(&mut room, 4, 5));
}

#[test]
fn notes_are_taken_once_and_swept() {
    let mut room = busy_room(2);
    assert!(!doom::doomed_nudge(&mut room, 1, EXIT_DOOM));
    assert_eq!(doom::take_doomed(&mut room, 1), Some(EXIT_DOOM));
    assert_eq!(doom::take_doomed(&mut room, 1), None);
    doom::doomed_nudge(&mut room, 1, EXIT_FAULT);
    utask::starve(&mut room, 0);
    assert_eq!(doom::sweep_doomed(&mut room), vec![1]);
    assert_eq!(room.pending, 0);
    assert_eq!(state(&room, 1), TaskState::Doomed);
    doom::nudge_with(&mut room, 2, 9, false);
    assert_eq!(room.pending, 0);
    doom::nudge_with(&mut room, 2, 9, true);
    doom::nudge_with(&mut room, 2, 9, true);
    assert_eq!(room.pending, 1);
    doom::rip(&mut room);
    assert_eq!(room.pending, 0);
}

#[test]
fn a_cascade_reaches_all_below() {
    let mut room = room_of(1);
    add(&mut room, 0, 1, 0);
    boot::found(&mut room, 1, Some(1), 101);
    add(&mut room, 0, 2, 1);
    add(&mut room, 0, 3, 1);
    boot::found(&mut room, 2, Some(2), 102);
    add(&mut room, 0, 4, 2);
    boot::found(&mut room, 3, None, 103);
    add(&mut room, 0, 5, 3);
    assert!(doom::descends(&room, 0, 1));
    assert!(doom::descends(&room, 0, 2));
    assert!(doom::descends(&room, 1, 2));
    assert!(!doom::descends(&room, 2, 1));
    assert!(!doom::descends(&room, 1, 1));
    assert!(!doom::descends(&room, 0, 3));
    let mut victims = doom::doom(&mut room, 1);
    victims.sort();
    assert_eq!(victims, vec![2, 3, 4]);
    assert_eq!(ready(&room, 0), vec![1, 5]);
    assert!(doom::doom(&mut room, 99).is_empty());
    assert!(doom::cull(&mut room, &vec![1], EXIT_CASCADE).is_empty());
    assert_eq!(doom::cull(&mut room, &vec![3], EXIT_CASCADE), vec![5]);
}

#[test]
fn last_rites_are_held_for_each_hook() {
    let mut room = busy_room(4);
    let mut rites = Rites { hooks: None };
    assert!(doom::suspend(&mut room, 4, 1));
    assert!(reap::hooked(&rites, &room, 4).is_empty());
    reap::hook(&mut rites, vec![10, 11]);
    reap::hook(&mut rites, vec![12]);
    assert_eq!(reap::hooked(&rites, &room, 4), vec![(10, 4), (11, 4)]);
    reap::reap(&mut room, 4);
    assert!(reap::hooked(&rites, &room, 4).is_empty());
}

#[test]
fn husks_are_buried_in_order() {
    let mut room = busy_room(3);
    doom::suspend(&mut room, 3, 1);
    doom::suspend(&mut room, 2, 1);
    reap::reap(&mut room, 3);
    reap::reap(&mut room, 2);
    reap::reap(&mut room, 3);
    assert_eq!(messenger::probe_bookkeeping(&room).1, 2);
    let remains = reap::bury(&mut room, 0);
    assert_eq!(room.score.reaped, 0);
    let tids: Vec<usize> = remains.iter().map(|r| r.tid).collect();
    assert_eq!(tids, vec![3, 2]);
    reap::prune_tasks(&mut room, 0);
    assert_eq!(room.teams.get(0).unwrap().tasks, vec![1]);
}

#[test]
fn a_stuck_ending_is_reported_once() {
    let mut room = busy_room(3);
    let mut b = Beacon { root: 0, progress: 0, counts: 0, fired: false };
    assert!(!beacon::shutting_down(&b, &room));
    beacon::arm(&mut b, 1);
    assert!(!beacon::shutting_down(&b, &room));
    utask::reap(&mut room, 0);
    assert!(beacon::shutting_down(&b, &room));
    settled(&mut room, 0, 1);
    assert!(beacon::shutting_down(&b, &room));
    assert_eq!(beacon::idle(&mut b, &room, 0, 100, 50), None);
    assert_eq!(beacon::idle(&mut b, &room, 0, 149, 50), None);
    assert_eq!(
        beacon::idle(&mut b, &room, 0, 150, 50),
        Some(Stuck { hart: 0, pushed: 3, reaped: 1, missing: 2, holders: 0, husks: 0 })
    );
    assert_eq!(beacon::idle(&mut b, &room, 0, 999, 50), None);
    assert_eq!((beacon::stall_ticks(10), beacon::stall_ticks(u64::MAX)), (20_000, u64::MAX));
    let mut c = Beacon { root: 1, progress: 0, counts: 0, fired: false };
    assert!(!beacon::stalled(&mut c, 3, 1, 10, 5));
    assert!(beacon::stalled(&mut c, 3, 1, 15, 5));
    assert!(!beacon::stalled(&mut c, 3, 2, 16, 5));
}

#[test]
fn a_last_identity_fits_one_word() {
    let l = LastIdent { task: 0x1234, team: 7 };
    assert_eq!(LastIdent::unpack(l.pack()), l);
    assert!(LastIdent::tagged(l.pack()));
    assert_eq!(Payload::of(0), Payload::Empty);
    assert_eq!(Payload::of(0x8000_1000), Payload::Live(0x8000_1000));
    assert_eq!(Payload::of(l.pack()), Payload::Last(l));
    let mut b = Badge::new();
    assert_eq!(b.read(), None);
    b.seat(ident(3, 2));
    let live = b.read().unwrap();
    assert_eq!((live.task_id(), live.team_id()), (3, 2));
    assert_eq!(live.trap(), Some(0x3000));
    b.shed(ident(3, 2));
    let last = b.read().unwrap();
    assert_eq!((last.task_id(), last.team_id()), (3, 2));
    assert_eq!(last.trap(), None);
    assert!(last.live().is_none());
}

#[test]
fn a_task_waits_until_its_pies_change() {
    let mut room = busy_room(2);
    let key = WakeKey::Pies { task: 1 };
    assert_eq!(wait::fall(&mut room, 0, 1, LIFE, None, 1000), Ok(Handoff::Switch(0x2000)));
    assert_eq!(state(&room, 1), TaskState::Blocked { key, ticket: 0 });
    assert!(wait::wake(&mut room, 0, key, LIFE));
    for _ in 0..3 {
        assert!(!wait::wake(&mut room, 0, key, LIFE));
    }
    assert_eq!(wait::fall(&mut room, 0, 1, LIFE, None, 1000), Ok(Handoff::Resume(true)));
    assert_eq!(wait::fall(&mut room, 0, 1, LIFE, None, 1000), Ok(Handoff::Switch(0x1000)));
}

#[test]
fn a_reason_serves_one_that_quits() {
    let mut room = busy_room(2);
    messenger::set_exit_reason(&mut room, 0, 7);
    assert_eq!(utask::reap(&mut room, 0), Leaving { tid: 1, reason: 7 });
    assert_eq!(settled(&mut room, 0, 1), Some(0x2000));
    assert_eq!(messenger::probe_bookkeeping(&room), (0, 0));
    assert_eq!(table::muster(&room, 1), Some(false));
    assert_eq!(utask::reap(&mut room, 0), Leaving { tid: 2, reason: 0 });
}

#[test]
fn a_queue_can_be_cleared_at_once() {
    let mut room = busy_room(3);
    let Room { lanes, tasks, .. } = &mut room;
    assert!(!lanes[0].starved_is_empty(tasks));
    assert_eq!(lanes[0].starved_clear(tasks), vec![2, 3]);
    assert!(lanes[0].starved_is_empty(tasks));
    assert_eq!(lanes[0].running_task(), Some(1));
}

#[test]
fn the_score_counts_who_came_and_who_went() {
    let mut room = busy_room(3);
    conductor::rooted(&mut room.score);
    for tid in 1..=3 {
        assert_eq!(conductor::counts(&room.score), (3, tid - 1));
        assert!(!conductor::done(&room.score));
        assert_eq!(utask::reap(&mut room, 0).tid, tid);
        let (remains, _) = reap::settle(&mut room, 0, tid);
        assert_eq!(conductor::counts(&room.score), (3, tid - 1));
        for r in remains {
            reap::give_back(&mut room, r);
        }
    }
    assert_eq!(conductor::counts(&room.score), (3, 3));
    assert!(conductor::done(&room.score));
    assert_eq!(table::roster_live(&room), (3, 0));
}
