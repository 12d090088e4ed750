//! A hall with a clock, and the calls of its programs.
use sqware::bits::Ipi;
use sqware::envcall::{self, Answer, Next, Request, Ucall};
use sqware::room::scheduler::fetch::WFI_FAR;
use sqware::room::scheduler::{self, Hall, Locks, Note, Scene, Stride, Tock};
use sqware::scheduler::Dispatch;
use sqware::scheduler::lanes::Remains;
use sqware::task::{BlockReason, Task, TaskState, TrapContext, TrapFrame};
use sqware::team::TeamBuilder;

fn starved(id: usize, team: usize) -> Task {
    Task {
        id,
        name: "worker",
        state: TaskState::Starved,
        team,
        trap: TrapFrame { va: 0x100 * id, pa: 0x1000 * id },
        kernel_sp: 0,
    }
}

fn hall_of(harts: usize) -> Hall {
    let tops: Vec<usize> = vec![0x9000; harts];
    let mut hall = scheduler::init(&tops);
    hall.teams.push(TeamBuilder::new(70).spawn(0));
    hall.teams.push(TeamBuilder::new(71).spawn(1));
    hall
}

fn scene(harts: usize, next_tock: Option<u64>, now: u64) -> Scene {
    Scene { busy: vec![false; harts], again: vec![false; harts], next_tock, now }
}

fn frame(number: usize, a0: usize, a1: usize) -> TrapContext {
    let mut gpr = [0usize; 32];
    gpr[17] = number;
    gpr[10] = a0;
    gpr[11] = a1;
    TrapContext {
        kernel_satp: 0,
        kernel_sp: 0,
        trap_handler: 0,
        trap_stack_corrupt: 0,
        user_pa: 0,
        user_satp: 0,
        self_va: 0,
        sepc: 0x100,
        sstatus: 0,
        gpr,
    }
}

#[test]
fn a_hart_sleeps_until_the_next_tock() {
    let mut hall = hall_of(1);
    assert!(matches!(
        scheduler::run(&mut hall, 0, &scene(1, Some(130), 100)),
        Stride::Sleep { delta: 30 }
    ));
    assert!(matches!(
        scheduler::run(&mut hall, 0, &scene(1, Some(90), 100)),
        Stride::Sleep { delta: 0 }
    ));
    match scheduler::idle(&mut hall, 0, &scene(1, None, 100)) {
        Stride::Sleep { delta } => assert_eq!(delta, WFI_FAR),
        _ => panic!("there is nothing to run"),
    }
}

#[test]
fn a_tock_wakes_the_one_that_it_belongs_to() {
    let mut hall = hall_of(2);
    scheduler::push(&mut hall, 0, starved(1, 0));
    scheduler::push(&mut hall, 0, starved(2, 0));
    scheduler::run(&mut hall, 0, &scene(2, None, 0));
    let (first, stride) = scheduler::park(&mut hall, 0, 50, &scene(2, None, 100));
    assert_eq!(first, Tock { handle: 0, at: 150 });
    assert!(matches!(stride, Stride::Run(Dispatch { pa: 0x2000, arm: true })));
    let (second, stride) = scheduler::park(&mut hall, 0, 7, &scene(2, Some(150), 110));
    assert_eq!(second, Tock { handle: 1, at: 117 });
    assert!(matches!(stride, Stride::Sleep { delta: 40 }));
    assert_eq!(scheduler::unpark(&mut hall, 1, &vec![9, 1, 1]), vec![vec![Ipi { mask: 1, base: 0 }]]);
    assert_eq!(scheduler::awake(&mut hall, 0, &vec![1]).len(), 0);
    assert!(!hall.tie.waiting.test(0));
    assert_eq!(hall.lanes[1].starved[0].id, 2);
    assert!(hall.blocked.contains(0));
    assert_eq!(scheduler::awake(&mut hall, 0, &vec![0]).len(), 1);
    assert_eq!(hall.lanes[0].starved[0].id, 1);
}

#[test]
fn work_is_a_ready_task_or_a_due_tock() {
    let mut hall = hall_of(2);
    assert!(!scheduler::has_work(&hall, None, 5));
    assert!(!scheduler::has_work(&hall, Some(6), 5));
    assert!(scheduler::has_work(&hall, Some(5), 5));
    scheduler::run(&mut hall, 1, &scene(2, None, 0));
    let p = scheduler::round(&hall, None, 5);
    assert!(!p.has_work);
    assert_eq!(p.asleep, vec![false, true]);
    scheduler::push(&mut hall, 0, starved(1, 0));
    assert!(scheduler::round(&hall, None, 5).has_work);
}

#[test]
fn the_running_task_is_known() {
    let mut hall = hall_of(2);
    assert_eq!(scheduler::running_team_try(None, 0, false), None);
    assert_eq!(scheduler::running_task_info(Some(&hall), 0, false), None);
    scheduler::push(&mut hall, 0, starved(4, 1));
    scheduler::run(&mut hall, 0, &scene(2, None, 0));
    assert_eq!(scheduler::running_task_id(&hall, 0), 4);
    assert_eq!(scheduler::running_team(&hall, 0), 1);
    assert_eq!(scheduler::running_team_try(Some(&hall), 0, false), Some(1));
    assert_eq!(scheduler::running_team_try(Some(&hall), 0, true), None);
    assert_eq!(scheduler::running_task_info(Some(&hall), 0, false), Some((4, "worker")));
    assert_eq!(scheduler::running_task_info(Some(&hall), 0, true), None);
    assert_eq!(scheduler::with_running_space(&hall, 0, |s| s), 71);
}

#[test]
fn a_task_has_one_place_in_the_hall() {
    let mut hall = hall_of(1);
    let locks = Locks { lanes: vec![false], blocked: false, reaped: false };
    scheduler::push(&mut hall, 0, starved(1, 0));
    scheduler::push(&mut hall, 0, starved(2, 0));
    assert!(scheduler::is_held(&hall, 1));
    scheduler::run(&mut hall, 0, &scene(1, None, 0));
    scheduler::park(&mut hall, 0, 9, &scene(1, None, 0));
    assert!(scheduler::is_held(&hall, 1));
    assert!(scheduler::is_held(&hall, 2));
    assert!(!scheduler::is_held(&hall, 3));
    assert_eq!(
        scheduler::scan(&hall, 0, 1, &locks),
        vec![
            Note::Running { hart: 0, own: true, id: 2, hit: false },
            Note::BlockedCount(1),
            Note::Blocked { handle: 0, id: 1, hit: true },
            Note::ReapedCount(0),
        ]
    );
    assert!(scheduler::task_mut(&hall, 0, &starved(3, 0), &locks).is_ok());
    assert!(scheduler::task_mut(&hall, 0, &starved(1, 0), &locks).is_err());
    assert!(scheduler::probe_strong(&hall, 0, &starved(3, 0), &locks).is_none());
    assert_eq!(scheduler::probe_strong(&hall, 0, &starved(2, 0), &locks).unwrap().len(), 4);
}

#[test]
fn a_locked_place_is_reported_as_locked() {
    let hall = hall_of(2);
    let locks = Locks { lanes: vec![true, false], blocked: true, reaped: true };
    assert_eq!(
        scheduler::scan(&hall, 1, 5, &locks),
        vec![
            Note::Locked { hart: 0, own: false },
            Note::Vacant { hart: 1, own: true },
            Note::BlockedLocked,
            Note::ReapedLocked,
        ]
    );
}

#[test]
fn the_gone_leave_their_space_and_frame() {
    let mut hall = hall_of(1);
    scheduler::push(&mut hall, 0, starved(1, 1));
    scheduler::run(&mut hall, 0, &scene(1, None, 0));
    let (gone, stride) = scheduler::reap(&mut hall, 0, &scene(1, None, 0));
    assert_eq!(gone, vec![Remains { id: 1, space: 71, va: 0x100 }]);
    assert!(matches!(stride, Stride::Halt));
    assert!(hall.teams[1].tasks.is_empty());
    assert!(!scheduler::is_held(&hall, 1));
    assert!(scheduler::clear(&mut hall).is_empty());
}

#[test]
fn calls_are_told_apart_by_number() {
    let all = [
        Ucall::Yield,
        Ucall::Write,
        Ucall::Exit,
        Ucall::GetTicks,
        Ucall::Sleep,
        Ucall::ClockGetTime,
        Ucall::HeapAllocate,
        Ucall::HeapDeallocate,
    ];
    for (n, c) in all.iter().enumerate() {
        assert_eq!(Ucall::of_number(n), Some(*c));
    }
    assert_eq!(Ucall::of_number(8), None);
    assert_eq!(Ucall::of_number(usize::MAX), None);
}

#[test]
fn a_call_moves_past_itself_unless_it_ends_the_task() {
    let mut f = frame(0, 0, 0);
    assert_eq!(envcall::dispatch(&mut f), Request::Yield);
    assert_eq!(f.sepc, 0x104);
    let mut f = frame(1, 0x141, 0);
    assert_eq!(envcall::dispatch(&mut f), Request::Write(0x41));
    let mut f = frame(2, 0, 0);
    assert_eq!(envcall::dispatch(&mut f), Request::Exit);
    assert_eq!(f.sepc, 0x100);
    let mut f = frame(3, 0, 0);
    assert_eq!(envcall::dispatch(&mut f), Request::Ticks);
    let mut f = frame(4, 250, 0);
    assert_eq!(envcall::dispatch(&mut f), Request::Sleep(250));
    let mut f = frame(5, 0, 0);
    assert_eq!(envcall::dispatch(&mut f), Request::Clock);
    let mut f = frame(6, 4097, 0);
    assert_eq!(envcall::dispatch(&mut f), Request::Allocate(8192));
    let mut f = frame(7, 0x5000, 1);
    assert_eq!(envcall::dispatch(&mut f), Request::Deallocate(0x5000, 4096));
    assert_eq!(f.sepc, 0x104);
}

#[test]
fn a_number_that_is_no_call_is_refused() {
    for number in [8, 99, usize::MAX] {
        let mut f = frame(number, 5, 6);
        assert_eq!(envcall::dispatch(&mut f), Request::Refused);
        assert!((f.gpr[10] as isize) < 0);
        assert_eq!((f.gpr[11], f.sepc), (6, 0x104));
    }
}

#[test]
fn answers_go_into_the_first_words() {
    let mut f = frame(0, 5, 6);
    envcall::reply(&mut f, Answer::Nothing);
    assert_eq!((f.gpr[10], f.gpr[11]), (5, 6));
    envcall::reply(&mut f, Answer::Ticks(9));
    assert_eq!((f.gpr[10], f.gpr[11]), (9, 6));
    envcall::reply(&mut f, Answer::Clock { secs: 3, nanos: 4 });
    assert_eq!((f.gpr[10], f.gpr[11]), (3, 4));
    envcall::reply(&mut f, Answer::Memory(Some(0x7000)));
    assert_eq!(f.gpr[10], 0x7000);
    envcall::reply(&mut f, Answer::Memory(None));
    assert_eq!(f.gpr[10], usize::MAX);
    envcall::reply(&mut f, Answer::Taken(true));
    assert_eq!(f.gpr[10], 0);
    envcall::reply(&mut f, Answer::Taken(false));
    assert_eq!(f.gpr[10], usize::MAX);
}

#[test]
fn the_scheduler_serves_its_part_of_a_call() {
    let mut hall = hall_of(1);
    scheduler::push(&mut hall, 0, starved(1, 0));
    scheduler::push(&mut hall, 0, starved(2, 0));
    scheduler::run(&mut hall, 0, &scene(1, None, 0));
    let now = scene(1, None, 1000);
    assert!(matches!(envcall::serve(&mut hall, 0, Request::Ticks, 10, &now), Next::Same));
    assert!(matches!(
        envcall::serve(&mut hall, 0, Request::Yield, 10, &now),
        Next::Switch(Dispatch { pa: 0x2000, arm: true })
    ));
    match envcall::serve(&mut hall, 0, Request::Sleep(5), 10, &now) {
        Next::Slept(tock, Stride::Run(d)) => {
            assert_eq!(tock, Tock { handle: 0, at: 1050 });
            assert_eq!(d.pa, 0x1000);
        },
        _ => panic!("a sleep gives a deadline"),
    }
    assert_eq!(
        hall.blocked.get(0).unwrap().state(),
        TaskState::Blocked { reason: BlockReason::Park { wake_at: 1050 } }
    );
    match envcall::serve(&mut hall, 0, Request::Exit, 10, &now) {
        Next::Gone(gone, Stride::Sleep { .. }) => {
            assert_eq!(gone, vec![Remains { id: 1, space: 70, va: 0x100 }]);
        },
        _ => panic!("an exit leaves remains"),
    }
}

#[test]
fn a_hall_takes_strict_turns() {
    let mut hall = hall_of(1);
    for id in 1..=3 {
        hall.lanes[0].push(starved(id, 0));
    }
    let mut pas: Vec<usize> = Vec::new();
    for _ in 0..4 {
        scheduler::run(&mut hall, 0, &scene(1, None, 0));
    }
    for _ in 0..21 {
        match scheduler::run(&mut hall, 0, &scene(1, None, 0)) {
            Stride::Run(d) => pas.push(d.pa / 0x1000),
            _ => panic!("somebody runs"),
        }
    }
    let mut expected = vec![1; 4];
    expected.extend(vec![2; 8]);
    expected.extend(vec![3; 8]);
    expected.push(1);
    assert_eq!(pas, expected);
}
