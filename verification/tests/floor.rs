//! Tasks and teams on a floor of harts.
use sqware::bits::Ipi;
use sqware::loader::{self, TEXT_FLAGS};
use sqware::scheduler::lanes::{self, Remains};
use sqware::scheduler::{self, Dispatch, Floor, NO_TASK_ID, Scheduler, Step, TIME_SLICE};
use sqware::task::{
    self, BlockReason, Grants, KernelWords, Layout, MapError, PAGE_SIZE, Task, TaskBuilder,
    TaskState, TrapFrame,
};
use sqware::team::{self, Team, TeamBuilder};

const LAYOUT: Layout = Layout { text_base: 0x1_0000, stack_size: 0x4000 };

const WORDS: KernelWords = KernelWords { kernel_satp: 77, trap_handler: 88, trap_stack_corrupt: 99 };

fn grants(pa: usize) -> Grants {
    Grants {
        stack: Ok(0x20_0000),
        frames: Ok(()),
        attached: Ok(()),
        frame: Ok(TrapFrame { va: 0x30_0000, pa }),
    }
}

fn starved(id: usize, team: usize) -> Task {
    Task {
        id,
        name: "task",
        state: TaskState::Starved,
        team,
        trap: TrapFrame { va: 0x100 * id, pa: 0x1000 * id },
        kernel_sp: 0,
    }
}

fn floor_of(harts: usize, teams: usize) -> Floor {
    let mut tops: Vec<usize> = Vec::new();
    for h in 0..harts {
        tops.push(0x9000 + h);
    }
    let mut floor = scheduler::init(&tops);
    for t in 0..teams {
        floor.teams.push(TeamBuilder::new(500 + t).spawn(t));
    }
    floor
}

fn no(n: usize) -> Vec<bool> {
    vec![false; n]
}

fn pa_of(step: Step) -> usize {
    match step {
        Step::Run(d) => d.pa,
        Step::Halt => panic!("halted"),
        Step::Sleep { .. } => panic!("asleep"),
    }
}

#[test]
fn only_some_changes_of_state_are_legal() {
    let running = TaskState::Running { ticks_left: 3 };
    let blocked = TaskState::Blocked { reason: BlockReason::Park { wake_at: 9 } };
    let waiting = TaskState::Blocked { reason: BlockReason::Wait { until: None } };
    assert!(task::is_legal(TaskState::Starved, running));
    assert!(task::is_legal(running, TaskState::Starved));
    assert!(task::is_legal(running, blocked));
    assert!(task::is_legal(running, waiting));
    assert!(task::is_legal(running, TaskState::Reaped));
    assert!(task::is_legal(blocked, TaskState::Starved));
    assert!(!task::is_legal(blocked, running));
    assert!(!task::is_legal(TaskState::Starved, blocked));
    assert!(!task::is_legal(TaskState::Reaped, TaskState::Starved));
    assert!(!task::is_legal(TaskState::Reaped, running));
    assert!(!task::is_legal(TaskState::Starved, TaskState::Reaped));
}

#[test]
fn only_a_sleeping_task_has_a_time_to_wake() {
    let mut t = starved(1, 0);
    assert_eq!(t.unpark(), None);
    t.transform(TaskState::Running { ticks_left: 8 });
    t.dec_ticks_left();
    assert_eq!(t.state(), TaskState::Running { ticks_left: 7 });
    t.transform(TaskState::Blocked { reason: BlockReason::Park { wake_at: 42 } });
    assert_eq!(t.unpark(), Some(42));
}

#[test]
fn a_builder_makes_the_first_frame() {
    let mut next = 5usize;
    let made = TaskBuilder::new(3, &LAYOUT)
        .name("init")
        .arg(11)
        .make(&mut next, grants(0x8000), &LAYOUT, WORDS, 0x9000, 2, 0x1234, u64::MAX)
        .ok()
        .unwrap();
    assert_eq!(next, 6);
    assert_eq!(made.task.id, 5);
    assert_eq!(made.task.name, "init");
    assert_eq!(made.task.team, 3);
    assert_eq!(made.task.state, TaskState::Starved);
    assert_eq!(made.stack_top, 0x20_4000);
    assert_eq!(made.frame.sepc, 0x1_0000);
    assert_eq!(made.frame.gpr[2], 0x20_4000);
    assert_eq!(made.frame.gpr[10], 11);
    assert_eq!(made.frame.gpr[1], 0);
    assert_eq!(made.frame.kernel_satp, 77);
    assert_eq!(made.frame.trap_handler, 88);
    assert_eq!(made.frame.trap_stack_corrupt, 99);
    assert_eq!(made.frame.kernel_sp, 0x9000);
    assert_eq!(made.frame.user_pa, 0x8000);
    assert_eq!(made.frame.self_va, 0x30_0000);
    assert_eq!(made.frame.user_satp, 0x8000_2000_0000_1234);
}

#[test]
fn a_frame_starts_in_user_mode_with_interrupts_on_return() {
    let mut next = 0usize;
    let start = |word: u64, next: &mut usize| {
        TaskBuilder::new(0, &LAYOUT)
            .entry(0x44)
            .make(next, grants(1), &LAYOUT, WORDS, 0, 0, 0, word)
            .ok()
            .unwrap()
            .frame
    };
    assert_eq!(start(0, &mut next).sstatus, 0x20);
    assert_eq!(start(u64::MAX, &mut next).sstatus, u64::MAX & !0x102);
    assert_eq!(start(0, &mut next).sepc, 0x44);
}

#[test]
fn a_refused_grant_is_handed_on() {
    let mut next = 0usize;
    let make = |g: Grants, next: &mut usize| {
        TaskBuilder::new(0, &LAYOUT).make(next, g, &LAYOUT, WORDS, 0, 0, 0, 0).err()
    };
    let mut g = grants(1);
    g.stack = Err(MapError::NoRegion);
    g.frame = Err(MapError::OutOfMemory);
    assert_eq!(make(g, &mut next), Some(MapError::NoRegion));
    let mut g = grants(1);
    g.frames = Err(MapError::OutOfMemory);
    assert_eq!(make(g, &mut next), Some(MapError::OutOfMemory));
    let mut g = grants(1);
    g.attached = Err(MapError::AlreadyMapped);
    assert_eq!(make(g, &mut next), Some(MapError::AlreadyMapped));
    let mut g = grants(1);
    g.frame = Err(MapError::NotAligned);
    assert_eq!(make(g, &mut next), Some(MapError::NotAligned));
    assert_eq!(next, 4);
}

#[test]
fn a_spawned_task_waits_at_its_hart() {
    let mut floor = floor_of(2, 1);
    let mut next = 40usize;
    assert!(matches!(
        scheduler::run(&mut floor, 0, &no(2), &no(2)),
        Step::Sleep { far: true }
    ));
    let l = floor.teams[0]
        .task(&LAYOUT)
        .spawn(&mut floor, 1, &mut next, grants(0x8000), &LAYOUT, WORDS, 0, 0, 0)
        .ok()
        .unwrap();
    assert_eq!(l.pa, 0x8000);
    assert_eq!(l.frame.kernel_sp, 0x9001);
    assert_eq!(l.calls, vec![Ipi { mask: 1, base: 0 }]);
    assert_eq!(floor.lanes[1].get_len(), 1);
    assert_eq!(floor.teams[0].tasks, vec![40]);
    assert_eq!(floor.tie.pushed, 1);
    assert_eq!(pa_of(scheduler::run(&mut floor, 1, &no(2), &no(2))), 0x8000);
}

#[test]
fn the_text_page_holds_the_program_and_zeros() {
    assert_eq!(loader::load(None, &[1, 2], &LAYOUT).err(), Some(MapError::OutOfMemory));
    let t = loader::load(Some(0x5000), &[1, 2, 3], &LAYOUT).ok().unwrap();
    assert_eq!((t.va, t.pa, t.len, t.flags), (0x1_0000, 0x5000, PAGE_SIZE, TEXT_FLAGS));
    assert_eq!(t.bytes.len(), PAGE_SIZE);
    assert_eq!(&t.bytes[..4], &[1, 2, 3, 0]);
    assert!(t.bytes[3..].iter().all(|b| *b == 0));
}

#[test]
fn pruning_keeps_the_living() {
    let mut t = Team { id: 1, space: 2, tasks: vec![4, 5, 6, 7] };
    t.prune_tasks(&vec![7, 5, 4], 5);
    assert_eq!(t.tasks, vec![4, 7]);
    t.push_task(9);
    assert_eq!(t.tasks, vec![4, 7, 9]);
    assert!(team::listed(&t.tasks, 9));
    assert!(!team::listed(&t.tasks, 5));
}

#[test]
fn there_is_one_team_of_the_kernel() {
    let mut slot: Option<Team> = None;
    assert_eq!(team::kernel(&mut slot, 3).space, 3);
    assert_eq!(team::kernel(&mut slot, 4).space, 3);
    assert_eq!(slot.unwrap().id, 0);
}

#[test]
fn a_slice_lasts_so_many_ticks() {
    let mut s = Scheduler::new(0, 0x9000);
    s.push(starved(1, 0));
    s.push(starved(2, 0));
    assert_eq!(s.fill(), Some(Dispatch { pa: 0x1000, arm: true }));
    for left in (1..TIME_SLICE).rev() {
        assert_eq!(s.tick(), Dispatch { pa: 0x1000, arm: false });
        assert_eq!(s.running.as_ref().unwrap().state(), TaskState::Running { ticks_left: left });
    }
    assert_eq!(s.tick(), Dispatch { pa: 0x2000, arm: true });
    assert_eq!(
        s.running.as_ref().unwrap().state(),
        TaskState::Running { ticks_left: TIME_SLICE }
    );
    assert_eq!(s.running.as_ref().unwrap().kernel_sp, 0x9000);
}

#[test]
fn a_lone_task_keeps_its_hart() {
    let mut s = Scheduler::new(0, 0x9000);
    s.push(starved(1, 0));
    s.fill();
    for _ in 0..3 * TIME_SLICE {
        assert_eq!(s.tick().pa, 0x1000);
    }
    assert_eq!(s.starve(), Dispatch { pa: 0x1000, arm: false });
}

#[test]
fn the_turn_comes_back() {
    let mut s = Scheduler::new(0, 0x9000);
    for id in 1..=3 {
        s.push(starved(id, 0));
    }
    s.fill();
    let mut order: Vec<usize> = Vec::new();
    for _ in 0..6 {
        order.push(s.starve().pa / 0x1000);
    }
    assert_eq!(order, vec![2, 3, 1, 2, 3, 1]);
}

#[test]
fn a_locked_queue_gives_nothing() {
    let mut s = Scheduler::new(0, 0);
    s.push(starved(1, 0));
    assert!(s.try_pop(true).is_none());
    assert_eq!(s.get_len(), 1);
    assert_eq!(s.try_pop(false).unwrap().id, 1);
    assert_eq!(s.get_len(), 0);
    assert!(s.pop().is_none());
}

#[test]
fn an_idle_hart_steals_from_the_next_that_has_work() {
    let mut floor = floor_of(4, 1);
    scheduler::push(&mut floor, 1, starved(1, 0));
    scheduler::push(&mut floor, 2, starved(2, 0));
    scheduler::push(&mut floor, 2, starved(3, 0));
    let busy = vec![false, true, false, false];
    assert_eq!(pa_of(scheduler::run(&mut floor, 0, &busy, &no(4))), 0x2000);
    assert_eq!(floor.lanes[2].get_len(), 1);
    assert_eq!(floor.lanes[1].get_len(), 1);
    assert_eq!(floor.lanes[0].running.as_ref().unwrap().kernel_sp, 0x9000);
}

#[test]
fn a_hart_looks_again_before_it_sleeps() {
    let mut floor = floor_of(2, 1);
    scheduler::push(&mut floor, 1, starved(1, 0));
    let step = scheduler::run(&mut floor, 0, &vec![false, true], &no(2));
    assert_eq!(pa_of(step), 0x1000);
    assert!(!floor.tie.waiting.test(0));
    scheduler::push(&mut floor, 1, starved(2, 0));
    let mut other = floor_of(2, 1);
    scheduler::push(&mut other, 1, starved(1, 0));
    let shut = vec![false, true];
    assert!(matches!(scheduler::run(&mut other, 0, &shut, &shut), Step::Sleep { far: true }));
    assert!(other.tie.waiting.test(0));
    scheduler::rouse(&mut other, 0);
    assert!(!other.tie.waiting.test(0));
}

#[test]
fn the_round_starts_where_the_last_one_ended() {
    let mut floor = floor_of(3, 1);
    for id in 1..=2 {
        scheduler::push(&mut floor, 1, starved(id, 0));
        scheduler::push(&mut floor, 2, starved(10 + id, 0));
    }
    let mut cursor = 0usize;
    let mut got: Vec<usize> = Vec::new();
    while let Some(t) = lanes::steal_round(&mut floor.lanes, 0, &no(3), &mut cursor) {
        got.push(t.id);
    }
    got.sort();
    assert_eq!(got, vec![1, 2, 11, 12]);
    assert!(lanes::steal(&mut floor.lanes, 0, &no(3)).is_none());
}

#[test]
fn a_sleeper_wakes_when_its_time_has_come() {
    let mut floor = floor_of(1, 1);
    for id in 1..=3 {
        scheduler::push(&mut floor, 0, starved(id, 0));
    }
    assert_eq!(pa_of(scheduler::run(&mut floor, 0, &no(1), &no(1))), 0x1000);
    assert_eq!(pa_of(scheduler::park(&mut floor, 0, 100, 5, 10, &no(1), &no(1))), 0x2000);
    assert_eq!(pa_of(scheduler::park(&mut floor, 0, 100, 1, 10, &no(1), &no(1))), 0x3000);
    assert!(matches!(
        scheduler::park(&mut floor, 0, 100, 2, 10, &no(1), &no(1)),
        Step::Sleep { far: false }
    ));
    assert_eq!(floor.blocked[0].unpark(), Some(150));
    assert_eq!(scheduler::unpark(&mut floor, 0, 109).len(), 0);
    assert_eq!(scheduler::unpark(&mut floor, 0, 120).len(), 2);
    let woken: Vec<usize> = floor.lanes[0].starved.iter().map(|t| t.id).collect();
    assert_eq!(woken, vec![2, 3]);
    assert_eq!(floor.blocked.len(), 1);
    assert_eq!(scheduler::unpark(&mut floor, 0, 150).len(), 1);
    assert_eq!(floor.lanes[0].get_len(), 3);
}

#[test]
fn an_empty_hart_runs_nobody() {
    let mut floor = floor_of(1, 1);
    assert_eq!(scheduler::running_task_id(&floor, 0), NO_TASK_ID);
    scheduler::push(&mut floor, 0, starved(6, 0));
    scheduler::idle(&mut floor, 0, &no(1), &no(1));
    assert_eq!(scheduler::running_task_id(&floor, 0), 6);
    assert_eq!(scheduler::with_running_space(&floor, 0, |s| s + 1), 501);
}

#[test]
fn the_dead_are_cleared_from_their_teams() {
    let mut floor = floor_of(1, 2);
    scheduler::push(&mut floor, 0, starved(1, 0));
    scheduler::push(&mut floor, 0, starved(2, 1));
    scheduler::push(&mut floor, 0, starved(3, 0));
    scheduler::run(&mut floor, 0, &no(1), &no(1));
    let (step, gone) = scheduler::reap(&mut floor, 0, &no(1), &no(1));
    assert_eq!(pa_of(step), 0x2000);
    assert_eq!(gone, vec![Remains { id: 1, space: 500, va: 0x100 }]);
    assert_eq!(floor.teams[0].tasks, vec![3]);
    assert_eq!(floor.teams[1].tasks, vec![2]);
    assert!(floor.reaped.is_empty());
    assert_eq!(floor.tie.reaped, 1);
}

#[test]
fn the_machine_halts_after_the_last_task() {
    let mut floor = floor_of(2, 1);
    scheduler::push(&mut floor, 0, starved(1, 0));
    scheduler::run(&mut floor, 0, &no(2), &no(2));
    let (step, gone) = scheduler::reap(&mut floor, 0, &no(2), &no(2));
    assert!(matches!(step, Step::Halt));
    assert!(gone.is_empty());
    assert!(matches!(scheduler::run(&mut floor, 1, &no(2), &no(2)), Step::Halt));
    assert_eq!(scheduler::clear(&mut floor), vec![Remains { id: 1, space: 500, va: 0x100 }]);
    assert_eq!(scheduler::clear(&mut floor), vec![]);
    assert!(floor.teams[0].tasks.is_empty());
}

#[test]
fn yielding_passes_the_hart_on() {
    let mut floor = floor_of(1, 1);
    scheduler::push(&mut floor, 0, starved(1, 0));
    scheduler::push(&mut floor, 0, starved(2, 0));
    scheduler::run(&mut floor, 0, &no(1), &no(1));
    assert_eq!(scheduler::starve(&mut floor, 0), Dispatch { pa: 0x2000, arm: true });
    assert_eq!(scheduler::starve(&mut floor, 0), Dispatch { pa: 0x1000, arm: true });
}
