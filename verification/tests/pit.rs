//! Waiting and waking by address, with deadlines.
use sqware::room::conductor::pit::{self, Badge, Current, Pit, WaitKey};
use sqware::room::conductor::{boot, task, trap, utask};
use sqware::room::scheduler::{Scene, Stride, Tock};
use sqware::scheduler::Dispatch;
use sqware::scheduler::lanes::Remains;
use sqware::task::{BlockReason, Task, TaskState, TrapFrame};
use sqware::team::TeamBuilder;

fn starved(id: usize, team: usize) -> Task {
    Task {
        id,
        name: "worker",
        state: TaskState::Starved,
        team,
        trap: TrapFrame { va: 0x100 * id, pa: 0x1000 * id },
        kernel_sp: 0,
    }
}

fn pit_of(harts: usize) -> Pit {
    let mut pit = boot::init(&vec![0x9000; harts]);
    pit.hall.teams.push(TeamBuilder::new(70).spawn(0));
    pit.badges.push(Badge { name: "shell", elftable: Some(0x50), kernel: false });
    pit.hall.teams.push(TeamBuilder::new(71).spawn(1));
    pit.badges.push(Badge { name: "kernel", elftable: None, kernel: true });
    pit
}

fn scene(harts: usize, now: u64) -> Scene {
    Scene { busy: vec![false; harts], again: vec![false; harts], next_tock: None, now }
}

fn pa_of(stride: &Stride) -> usize {
    match stride {
        Stride::Run(d) => d.pa,
        _ => panic!("nothing runs"),
    }
}

#[test]
fn a_key_joins_a_space_and_an_address() {
    assert_eq!(WaitKey::compose(0x12, 0x3456), WaitKey(0x0012_0000_0000_3456));
    assert_ne!(WaitKey::compose(1, 2), WaitKey::compose(2, 1));
    assert_eq!(WaitKey::compose(0x1_0001, 5), WaitKey::compose(1, 5));
}

#[test]
fn an_event_without_a_waiter_is_kept_for_one() {
    let mut p = pit_of(1);
    task::push(&mut p, 0, starved(1, 0));
    trap::run(&mut p, 0, &scene(1, 0));
    let key = WaitKey::compose(1, 0x40);
    assert!(utask::wake(&mut p, 0, key).is_none());
    assert!(utask::wake(&mut p, 0, key).is_none());
    let (tock, stride) = utask::wait(&mut p, 0, key, None, &scene(1, 0));
    assert_eq!(tock, None);
    assert!(matches!(stride, Stride::Run(Dispatch { pa: 0x1000, arm: false })));
    let (_, stride) = utask::wait(&mut p, 0, key, None, &scene(1, 0));
    assert!(matches!(stride, Stride::Sleep { .. }));
}

#[test]
fn the_first_to_come_is_the_first_served() {
    let mut p = pit_of(1);
    for id in 1..=3 {
        task::push(&mut p, 0, starved(id, 0));
    }
    let key = WaitKey::compose(1, 0x40);
    trap::run(&mut p, 0, &scene(1, 0));
    utask::wait(&mut p, 0, key, None, &scene(1, 0));
    utask::wait(&mut p, 0, key, None, &scene(1, 0));
    assert_eq!(p.hall.lanes[0].running.as_ref().unwrap().id, 3);
    assert!(utask::wake(&mut p, 0, key).is_some());
    assert!(utask::wake(&mut p, 0, key).is_some());
    let ready: Vec<usize> = p.hall.lanes[0].starved.iter().map(|t| t.id).collect();
    assert_eq!(ready, vec![1, 2]);
    assert_eq!(p.hall.lanes[0].get_len(), 2);
}

#[test]
fn a_deadline_ends_the_wait_once() {
    let mut p = pit_of(1);
    task::push(&mut p, 0, starved(1, 0));
    task::push(&mut p, 0, starved(2, 0));
    trap::run(&mut p, 0, &scene(1, 0));
    let key = WaitKey::compose(1, 0x40);
    let (tock, stride) = utask::wait(&mut p, 0, key, Some(30), &scene(1, 100));
    assert_eq!(tock, Some(Tock { handle: 0, at: 130 }));
    assert_eq!(pa_of(&stride), 0x2000);
    let waiter = p.sites.get(key.0).unwrap().waiters[0].task.state();
    assert_eq!(waiter, TaskState::Blocked { reason: BlockReason::Wait { until: Some(130) } });
    let (woke, calls) = pit::unpark(&mut p, 0, &vec![0]);
    assert!(woke);
    assert_eq!(calls.len(), 1);
    let (woke, _) = pit::unpark(&mut p, 0, &vec![0]);
    assert!(!woke);
    assert!(utask::wake(&mut p, 0, key).is_none());
    assert_eq!(p.hall.lanes[0].starved[0].id, 1);
}

#[test]
fn a_wake_cancels_the_deadline() {
    let mut p = pit_of(1);
    task::push(&mut p, 0, starved(1, 0));
    task::push(&mut p, 0, starved(2, 0));
    trap::run(&mut p, 0, &scene(1, 0));
    let key = WaitKey::compose(1, 0x40);
    utask::wait(&mut p, 0, key, Some(30), &scene(1, 100));
    assert!(utask::wake(&mut p, 0, key).is_some());
    assert!(!p.times.contains(0));
    let (woke, _) = pit::unpark(&mut p, 0, &vec![0]);
    assert!(!woke);
    assert_eq!(p.hall.lanes[0].get_len(), 1);
}

#[test]
fn an_idle_hart_resumes_with_whom_a_deadline_woke() {
    let mut p = pit_of(1);
    task::push(&mut p, 0, starved(1, 0));
    boot::idle(&mut p, 0, &scene(1, 0));
    let (tock, stride) = utask::park(&mut p, 0, 20, &scene(1, 5));
    assert_eq!(tock, Tock { handle: 0, at: 25 });
    assert!(matches!(stride, Stride::Sleep { .. }));
    assert!(p.hall.tie.waiting.test(0));
    let (calls, stride) = pit::resume(&mut p, 0, &vec![], &scene(1, 10));
    assert!(calls.is_empty());
    assert!(matches!(stride, Stride::Sleep { .. }));
    let (calls, stride) = pit::resume(&mut p, 0, &vec![0], &scene(1, 25));
    assert_eq!(calls.len(), 1);
    assert_eq!(pa_of(&stride), 0x1000);
    assert!(!p.hall.tie.waiting.test(0));
}

#[test]
fn a_hart_remembers_the_last_one_that_it_ran() {
    let mut p = pit_of(2);
    assert!(pit::ident(Some(&p), 0).is_none());
    assert!(pit::ident(None, 0).is_none());
    task::push(&mut p, 0, starved(1, 0));
    trap::run(&mut p, 0, &scene(2, 0));
    let live = pit::ident(Some(&p), 0).unwrap();
    assert_eq!(live.id(), 1);
    assert_eq!(live.name(), "worker");
    assert_eq!(live.team_name(), "shell");
    assert_eq!(live.elftable(), Some(0x50));
    assert_eq!(live.trap(), Some(TrapFrame { va: 0x100, pa: 0x1000 }));
    assert!(live.live().is_some());
    let (gone, stride) = utask::reap(&mut p, 0, &scene(2, 0));
    assert_eq!(gone, vec![Remains { id: 1, space: 70, va: 0x100 }]);
    assert!(matches!(stride, Stride::Halt));
    let last = pit::ident(Some(&p), 0).unwrap();
    assert!(matches!(last, Current::Last(_)));
    assert_eq!(last.id(), 1);
    assert_eq!(last.team_name(), "shell");
    assert_eq!(last.trap(), None);
    assert!(last.live().is_none());
}

#[test]
fn yielding_notes_who_comes_next() {
    let mut p = pit_of(1);
    task::push(&mut p, 0, starved(1, 0));
    task::push(&mut p, 0, starved(2, 1));
    trap::run(&mut p, 0, &scene(1, 0));
    assert_eq!(p.thread_word(0, 0xABC), None);
    assert_eq!(utask::starve(&mut p, 0), Dispatch { pa: 0x2000, arm: true });
    assert_eq!(pit::ident(Some(&p), 0).unwrap().team_name(), "kernel");
    assert_eq!(p.thread_word(0, 0xABC), Some(0xABC));
    assert_eq!(p.leaving(0).id, 2);
}
