//! Environment calls: what a user program asks the kernel for.
//!
//! The call's number is in register 17, its arguments are in registers 10 and 11, and so is
//! the answer. [`dispatch`] reads a call and moves the program past it; [`serve`] does what
//! it asks of the scheduler; the host does the rest, and [`reply`] writes the answer.
use vstd::prelude::*;
use crate::room::scheduler::{Hall, HallView, Scene, Stride, Tock, park, reap, starve};
use crate::room::scheduler::{buried, far, lain_down, strides};
use crate::scheduler::Dispatch;
use crate::scheduler::lanes::Remains;
use crate::task::{BlockReason, PAGE_SIZE, TaskState, TrapContext};

verus! {

/// The calls, in the order of their numbers.
#[derive(Clone, Copy, Debug, PartialEq, Eq, Structural)]
pub enum Ucall {
    Yield,
    Write,
    Exit,
    GetTicks,
    Sleep,
    ClockGetTime,
    HeapAllocate,
    HeapDeallocate,
}

/// The call with the number `n`.
pub open spec fn call_of(n: usize) -> Option<Ucall> {
    if n == 0 {
        Some(Ucall::Yield)
    } else if n == 1 {
        Some(Ucall::Write)
    } else if n == 2 {
        Some(Ucall::Exit)
    } else if n == 3 {
        Some(Ucall::GetTicks)
    } else if n == 4 {
        Some(Ucall::Sleep)
    } else if n == 5 {
        Some(Ucall::ClockGetTime)
    } else if n == 6 {
        Some(Ucall::HeapAllocate)
    } else if n == 7 {
        Some(Ucall::HeapDeallocate)
    } else {
        None
    }
}

impl Ucall {
    /// Computes [`call_of`].
    pub fn of_number(n: usize) -> (c: Option<Ucall>)
        ensures
            c == call_of(n),
    {
        match n {
            0 => Some(Ucall::Yield),
            1 => Some(Ucall::Write),
            2 => Some(Ucall::Exit),
            3 => Some(Ucall::GetTicks),
            4 => Some(Ucall::Sleep),
            5 => Some(Ucall::ClockGetTime),
            6 => Some(Ucall::HeapAllocate),
            7 => Some(Ucall::HeapDeallocate),
            _ => None,
        }
    }
}

/// What the host is to do for a call.
#[derive(Clone, Copy, Debug, PartialEq, Eq, Structural)]
pub enum Request {
    /// Let another task run.
    Yield,
    /// Write this character.
    Write(u8),
    /// End the task.
    Exit,
    /// Tell the tick count.
    Ticks,
    /// Let the task sleep for this many milliseconds.
    Sleep(u64),
    /// Tell the time since boot.
    Clock,
    /// Give memory of this size, a number of whole pages.
    Allocate(usize),
    /// Take back memory of this size at this address.
    Deallocate(usize, usize),
    /// Nothing: there is no such call, and the program has been told so.
    Refused,
}

/// `n` rounded up to whole pages, at least one.
pub open spec fn pages(n: usize) -> int {
    if n == 0 {
        PAGE_SIZE as int
    } else {
        (n + PAGE_SIZE - 1) / PAGE_SIZE as int * PAGE_SIZE
    }
}

/// Whether `n` can be rounded up to whole pages.
pub open spec fn has_pages(n: usize) -> bool {
    n + PAGE_SIZE - 1 <= usize::MAX
}

fn round_up(n: usize) -> (p: usize)
    requires
        has_pages(n),
    ensures
        p == pages(n),
        rounds(n, p),
        p % PAGE_SIZE == 0,
        p >= n && p > 0,
{
    let m: usize = if n == 0 {
        1
    } else {
        n
    };
    let p: usize = (m + (PAGE_SIZE - 1)) / PAGE_SIZE * PAGE_SIZE;
    p
}

/// The request that `call` with these arguments is; `None` is no call.
pub open spec fn requested(call: Option<Ucall>, a0: usize, a1: usize) -> Request {
    match call {
        None => Request::Refused,
        Some(call) => asked(call, a0, a1),
    }
}

/// The request that `call` with these arguments is.
pub open spec fn asked(call: Ucall, a0: usize, a1: usize) -> Request {
    match call {
        Ucall::Yield => Request::Yield,
        Ucall::Write => Request::Write((a0 % 256) as u8),
        Ucall::Exit => Request::Exit,
        Ucall::GetTicks => Request::Ticks,
        Ucall::Sleep => Request::Sleep(a0 as u64),
        Ucall::ClockGetTime => Request::Clock,
        Ucall::HeapAllocate => Request::Allocate(pages(a0) as usize),
        Ucall::HeapDeallocate => Request::Deallocate(a0, pages(a1) as usize),
    }
}

/// Whether `size` is the least number of bytes that holds `n` and one byte at least, and is
/// whole pages of 4096.
pub open spec fn rounds(n: usize, size: usize) -> bool {
    &&& size % 4096 == 0
    &&& size > 0
    &&& n <= size
    &&& size - 4096 < n || size == 4096
}

/// Whether the numbers of a call stay within the machine's words.
pub open spec fn within(frame: TrapContext) -> bool {
    let call = call_of(frame.gpr@[17]);
    &&& call != Some(Ucall::Exit) ==> frame.sepc + 4 <= usize::MAX
    &&& call == Some(Ucall::HeapAllocate) ==> has_pages(frame.gpr@[10])
    &&& call == Some(Ucall::HeapDeallocate) ==> has_pages(frame.gpr@[11])
}

/// Reads the call that `frame` makes and moves the program past it, except where it ends. A
/// number that is no call is refused: the answer is the highest word there is, which is negative
/// to the program, and nothing else happens.
pub fn dispatch(frame: &mut TrapContext) -> (r: Request)
    requires
        within(*old(frame)),
    ensures
        r == requested(
            call_of(old(frame).gpr@[17]),
            old(frame).gpr@[10],
            old(frame).gpr@[11],
        ),
        forall|i: int|
            0 <= i < 32 ==> #[trigger] final(frame).gpr@[i] == (if i == 10 && r is Refused {
                usize::MAX
            } else {
                old(frame).gpr@[i]
            }),
        *final(frame) == (TrapContext {
            sepc: if r is Exit {
                old(frame).sepc
            } else {
                (old(frame).sepc + 4) as usize
            },
            gpr: final(frame).gpr,
            ..*old(frame)
        }),
        !(r is Refused) ==> final(frame).gpr == old(frame).gpr,
        r is Yield <==> old(frame).gpr@[17] == 0,
        r is Write <==> old(frame).gpr@[17] == 1,
        r is Exit <==> old(frame).gpr@[17] == 2,
        r is Ticks <==> old(frame).gpr@[17] == 3,
        r is Sleep <==> old(frame).gpr@[17] == 4,
        r is Clock <==> old(frame).gpr@[17] == 5,
        r is Allocate <==> old(frame).gpr@[17] == 6,
        r is Deallocate <==> old(frame).gpr@[17] == 7,
        r is Refused <==> old(frame).gpr@[17] > 7,
        r matches Request::Write(byte) ==> byte == old(frame).gpr@[10] % 256,
        r matches Request::Sleep(ms) ==> ms == old(frame).gpr@[10],
        r matches Request::Allocate(size) ==> rounds(old(frame).gpr@[10], size),
        r matches Request::Deallocate(va, size) ==> va == old(frame).gpr@[10] && rounds(
            old(frame).gpr@[11],
            size,
        ),
        r is Exit ==> final(frame).sepc == old(frame).sepc,
        !(r is Exit) ==> final(frame).sepc == old(frame).sepc + 4,
        r is Refused ==> final(frame).gpr@[10] == usize::MAX,
{
    let number: usize = frame.gpr[17];
    let a0: usize = frame.gpr[10];
    let a1: usize = frame.gpr[11];
    let call: Ucall = match Ucall::of_number(number) {
        Some(call) => call,
        None => {
            frame.sepc = frame.sepc + 4;
            frame.gpr[10] = usize::MAX;
            return Request::Refused;
        },
    };
    match call {
        Ucall::Exit => {},
        _ => {
            frame.sepc = frame.sepc + 4;
        },
    }
    match call {
        Ucall::Yield => Request::Yield,
        Ucall::Write => Request::Write((a0 % 256) as u8),
        Ucall::Exit => Request::Exit,
        Ucall::GetTicks => Request::Ticks,
        Ucall::Sleep => Request::Sleep(a0 as u64),
        Ucall::ClockGetTime => Request::Clock,
        Ucall::HeapAllocate => Request::Allocate(round_up(a0)),
        Ucall::HeapDeallocate => Request::Deallocate(a0, round_up(a1)),
    }
}

/// What the host found for a request.
#[derive(Clone, Copy, Debug, PartialEq, Eq, Structural)]
pub enum Answer {
    /// Nothing to tell.
    Nothing,
    /// The tick count.
    Ticks(usize),
    /// The time since boot.
    Clock { secs: usize, nanos: usize },
    /// The memory, if there was any.
    Memory(Option<usize>),
    /// Whether the memory was taken back.
    Taken(bool),
}

/// The register that `answer` leaves in register 10, where it changes it.
pub open spec fn first_word(answer: Answer) -> Option<usize> {
    match answer {
        Answer::Nothing => None,
        Answer::Ticks(n) => Some(n),
        Answer::Clock { secs, .. } => Some(secs),
        Answer::Memory(Some(va)) => Some(va),
        Answer::Memory(None) => Some(usize::MAX),
        Answer::Taken(ok) => Some(
            if ok {
                0
            } else {
                usize::MAX
            },
        ),
    }
}

/// Writes the answer: every refusal is the highest word there is.
pub fn reply(frame: &mut TrapContext, answer: Answer)
    ensures
        forall|i: int|
            0 <= i < 32 ==> #[trigger] final(frame).gpr@[i] == (if i == 10 && first_word(
                answer,
            ) is Some {
                first_word(answer)->0
            } else if i == 11 && answer is Clock {
                answer->nanos
            } else {
                old(frame).gpr@[i]
            }),
        *final(frame) == (TrapContext { gpr: final(frame).gpr, ..*old(frame) }),
        answer is Nothing ==> final(frame).gpr@[10] == old(frame).gpr@[10],
        answer matches Answer::Ticks(n) ==> final(frame).gpr@[10] == n,
        answer matches Answer::Clock { secs, nanos } ==> final(frame).gpr@[10] == secs && final(frame).gpr@[11]
            == nanos,
        answer matches Answer::Memory(found) ==> final(frame).gpr@[10] == (if found is Some {
            found->0
        } else {
            usize::MAX
        }),
        answer matches Answer::Taken(ok) ==> final(frame).gpr@[10] == (if ok {
            0
        } else {
            usize::MAX
        }),
        !(answer is Clock) ==> final(frame).gpr@[11] == old(frame).gpr@[11],
{
    match answer {
        Answer::Nothing => {},
        Answer::Ticks(n) => {
            frame.gpr[10] = n;
        },
        Answer::Clock { secs, nanos } => {
            frame.gpr[10] = secs;
            frame.gpr[11] = nanos;
        },
        Answer::Memory(found) => {
            frame.gpr[10] = match found {
                Some(va) => va,
                None => usize::MAX,
            };
        },
        Answer::Taken(ok) => {
            frame.gpr[10] = if ok {
                0
            } else {
                usize::MAX
            };
        },
    }
}

/// Where a hart goes on after a call.
pub enum Next {
    /// In the same program.
    Same,
    /// Wherever the scheduler says: the caller made way.
    Switch(Dispatch),
    /// Wherever the scheduler says: the caller sleeps until the deadline.
    Slept(Tock, Stride),
    /// Wherever the scheduler says: the caller is over, and this is left of the tasks that
    /// are.
    Gone(Vec<Remains>, Stride),
}

/// Whether serving `request` leads from `a` to `b` and to `next`, where a millisecond has
/// `rate` ticks.
pub open spec fn served(
    a: Hall,
    b: Hall,
    me: usize,
    request: Request,
    rate: u64,
    scene: Scene,
    next: Next,
) -> bool {
    match request {
        Request::Yield => {
            let lane = a@.lanes[me as int];
            let after = if lane.starved.len() == 0 {
                lane
            } else {
                lane.rotated()
            };
            &&& next == Next::Switch(
                Dispatch { pa: after.running->0.trap.pa, arm: lane.starved.len() > 0 },
            )
            &&& b@ == (HallView { lanes: a@.lanes.update(me as int, after), ..a@ })
            &&& b.teams == a.teams
            &&& b.tie == a.tie
        },
        Request::Sleep(ms) => {
            &&& next is Slept
            &&& next->Slept_0 == (Tock {
                handle: a@.next_handle,
                at: (scene.now + ms * rate) as u64,
            })
            &&& exists|mid: Hall|
                lain_down(a, mid, me as int, next->Slept_0.at) && #[trigger] strides(
                    mid,
                    me,
                    scene.busy@,
                    scene.again@,
                    far(scene.next_tock, scene.now),
                    b,
                    next->Slept_1,
                )
        },
        Request::Exit => {
            &&& next is Gone
            &&& exists|mid: Hall| #[trigger]
                buried(a, mid, me as int, next->Gone_0@) && strides(
                    mid,
                    me,
                    scene.busy@,
                    scene.again@,
                    far(scene.next_tock, scene.now),
                    b,
                    next->Gone_1,
                )
        },
        _ => next == Next::Same && b == a,
    }
}

/// Serves the part of a call that is the scheduler's: yielding, sleeping and ending. Every
/// other call leaves the hart in the same program.
pub fn serve(hall: &mut Hall, me: usize, request: Request, rate: u64, scene: &Scene) -> (next: Next)
    requires
        old(hall).wf(),
        me < old(hall)@.lanes.len(),
        old(hall)@.lanes[me as int].running is Some,
        request matches Request::Sleep(ms) ==> scene.now + ms * rate <= u64::MAX && old(
            hall,
        )@.next_handle < u64::MAX,
        scene.busy@.len() == old(hall)@.lanes.len(),
        scene.again@.len() == old(hall)@.lanes.len(),
    ensures
        final(hall).wf(),
        served(*old(hall), *final(hall), me, request, rate, *scene, next),
{
    match request {
        Request::Yield => Next::Switch(starve(hall, me)),
        Request::Sleep(ms) => {
            assert(ms * rate >= 0) by (nonlinear_arith);
            let (tock, stride) = park(hall, me, ms * rate, scene);
            let next: Next = Next::Slept(tock, stride);
            assert(next->Slept_0 == tock && next->Slept_1 == stride);
            next
        },
        Request::Exit => {
            let (gone, stride) = reap(hall, me, scene);
            let next: Next = Next::Gone(gone, stride);
            assert(next->Gone_0 == gone && next->Gone_1 == stride);
            next
        },
        _ => Next::Same,
    }
}

/// A sleeper sleeps as many milliseconds as it asked for: its deadline is that many times the
/// ticks of a millisecond after now, under a handle of its own.
pub proof fn law_sleep_is_as_long_as_asked(
    a: Hall,
    b: Hall,
    me: usize,
    ms: u64,
    rate: u64,
    scene: Scene,
    next: Next,
)
    requires
        scene.now + ms * rate <= u64::MAX,
        served(a, b, me, Request::Sleep(ms), rate, scene, next),
    ensures
        next is Slept,
        next->Slept_0.at == scene.now + ms * rate,
        next->Slept_0.handle == a@.next_handle,
{
    assert(0 <= ms * rate) by (nonlinear_arith);
}

/// Who sleeps lies under that handle afterwards, until that time.
pub proof fn law_sleeper_lies_in_its_bed(
    a: Hall,
    b: Hall,
    me: usize,
    ms: u64,
    rate: u64,
    scene: Scene,
    next: Next,
)
    requires
        me < a@.lanes.len(),
        a@.lanes[me as int].running is Some,
        a@.next_handle < u64::MAX,
        scene.now + ms * rate <= u64::MAX,
        served(a, b, me, Request::Sleep(ms), rate, scene, next),
    ensures
        b@.blocked.contains_key(a@.next_handle),
        b@.blocked[a@.next_handle].id == a@.lanes[me as int].running->0.id,
        b@.blocked[a@.next_handle].state == (TaskState::Blocked {
            reason: BlockReason::Park { wake_at: (scene.now + ms * rate) as u64 },
        }),
        b@.next_handle == a@.next_handle + 1,
{
    law_sleep_is_as_long_as_asked(a, b, me, ms, rate, scene, next);
}

/// Who yields goes to the end of its hart's queue and the first of it runs; alone it goes on.
pub proof fn law_yield_turns_the_queue(
    a: Hall,
    b: Hall,
    me: usize,
    rate: u64,
    scene: Scene,
    next: Next,
)
    requires
        me < a@.lanes.len(),
        a@.lanes[me as int].running is Some,
        served(a, b, me, Request::Yield, rate, scene, next),
    ensures
        ({
            let l = a@.lanes[me as int];
            let m = b@.lanes[me as int];
            &&& l.starved.len() == 0 ==> m == l
            &&& l.starved.len() > 0 ==> m.running->0.id == l.starved[0].id && m.starved.last().id
                == l.running->0.id && m.starved.len() == l.starved.len()
            &&& next matches Next::Switch(d) && d.pa == m.running->0.trap.pa && (d.arm <==> l.starved.len()
                > 0)
            &&& b@.blocked == a@.blocked && b@.reaped == a@.reaped
        }),
{
}

/// Who exits is gone from its hart with all that is left of it, and counted.
pub proof fn law_exit_gives_back(
    a: Hall,
    b: Hall,
    me: usize,
    rate: u64,
    scene: Scene,
    next: Next,
)
    requires
        me < a@.lanes.len(),
        a@.lanes[me as int].running is Some,
        served(a, b, me, Request::Exit, rate, scene, next),
    ensures
        next is Gone,
        next->Gone_0@.len() == a@.reaped.len() + 1,
        next->Gone_0@.last().id == a@.lanes[me as int].running->0.id,
        b@.reaped.len() == 0,
        b@.blocked == a@.blocked,
{
    let mid = choose|mid: Hall| #[trigger]
        buried(a, mid, me as int, next->Gone_0@) && strides(
            mid,
            me,
            scene.busy@,
            scene.again@,
            far(scene.next_tock, scene.now),
            b,
            next->Gone_1,
        );
    assert(buried(a, mid, me as int, next->Gone_0@));
}

/// Every other request leaves the hall as it is, and the program goes on.
pub proof fn law_other_requests_change_nothing(
    a: Hall,
    b: Hall,
    me: usize,
    request: Request,
    rate: u64,
    scene: Scene,
    next: Next,
)
    requires
        !(request is Yield),
        !(request is Sleep),
        !(request is Exit),
        served(a, b, me, request, rate, scene, next),
    ensures
        next == Next::Same,
        b == a,
{
}

} // verus!
