//! Tasks of the plain scheduler: a state machine with a trap frame.
use vstd::prelude::*;
use crate::bits::Ipi;
use crate::scheduler;
use crate::scheduler::Floor;
use crate::scheduler::admitted;

verus! {

/// The size of a page.
pub const PAGE_SIZE: usize = 4096;

/// Why a task is blocked.
#[derive(Clone, Copy, Debug, PartialEq, Eq, Structural)]
pub enum BlockReason {
    /// It sleeps until this time.
    Park { wake_at: u64 },
    /// It waits for an event, until this time at the latest.
    Wait { until: Option<u64> },
}

/// Where a task stands.
#[derive(Clone, Copy, Debug, PartialEq, Eq, Structural)]
pub enum TaskState {
    /// On a hart, with this much of its time slice left.
    Running { ticks_left: u32 },
    /// Not able to run.
    Blocked { reason: BlockReason },
    /// Ready to run.
    Starved,
    /// Over, its remains still to be cleared away.
    Reaped,
}

/// Where the trap frame of a task lies.
#[derive(Clone, Copy, Debug, PartialEq, Eq, Structural)]
pub struct TrapFrame {
    /// In its own address space.
    pub va: usize,
    /// In physical memory.
    pub pa: usize,
}

/// A task. Whoever holds the value holds the task: a container that has it is the only one.
pub struct Task {
    pub id: usize,
    pub name: &'static str,
    pub state: TaskState,
    /// The number of its team.
    pub team: usize,
    pub trap: TrapFrame,
    /// The trap stack that its frame names.
    pub kernel_sp: usize,
}

/// Whether a task may go from `a` to `b`.
pub open spec fn legal(a: TaskState, b: TaskState) -> bool {
    ||| a is Starved && b is Running
    ||| a is Running && b is Starved
    ||| a is Running && b is Blocked
    ||| a is Blocked && b is Starved
    ||| a is Running && b is Reaped
}

/// Computes [`legal`].
pub fn is_legal(a: TaskState, b: TaskState) -> (yes: bool)
    ensures
        yes == legal(a, b),
{
    match (a, b) {
        (TaskState::Starved, TaskState::Running { .. }) => true,
        (TaskState::Running { .. }, TaskState::Starved) => true,
        (TaskState::Running { .. }, TaskState::Blocked { .. }) => true,
        (TaskState::Blocked { .. }, TaskState::Starved) => true,
        (TaskState::Running { .. }, TaskState::Reaped) => true,
        _ => false,
    }
}

impl Task {
    /// Goes to the state `next`, which the present one must allow.
    pub fn transform(&mut self, next: TaskState)
        requires
            legal(old(self).state, next),
        ensures
            *final(self) == (Task { state: next, ..*old(self) }),
    {
        self.state = next;
    }

    /// The present state.
    pub fn state(&self) -> (s: TaskState)
        ensures
            s == self.state,
    {
        self.state
    }

    /// Spends one tick of the time slice of a running task.
    pub fn dec_ticks_left(&mut self)
        requires
            old(self).state is Running,
            old(self).state->ticks_left >= 1,
        ensures
            *final(self) == (Task {
                state: TaskState::Running {
                    ticks_left: (old(self).state->ticks_left - 1) as u32,
                },
                ..*old(self)
            }),
    {
        if let TaskState::Running { ticks_left } = self.state {
            self.state = TaskState::Running { ticks_left: ticks_left - 1 };
        }
    }

    /// The time until which the task sleeps.
    pub fn unpark(&self) -> (at: Option<u64>)
        ensures
            at == (match self.state {
                TaskState::Blocked { reason: BlockReason::Park { wake_at } } => Some(wake_at),
                _ => None,
            }),
    {
        match self.state {
            TaskState::Blocked { reason: BlockReason::Park { wake_at } } => Some(wake_at),
            _ => None,
        }
    }
}

/// An ended task stays ended: no state follows [`TaskState::Reaped`].
pub proof fn law_reaped_is_final(next: TaskState)
    ensures
        !legal(TaskState::Reaped, next),
{
}

/// A task runs only out of the ready state, and every task that runs or sleeps can only
/// get back to running by way of it.
pub proof fn law_running_comes_from_starved(a: TaskState, b: TaskState)
    requires
        legal(a, b),
        b is Running,
    ensures
        a is Starved,
{
}

/// Why memory could not be mapped.
#[derive(Clone, Copy, Debug, PartialEq, Eq, Structural)]
pub enum MapError {
    OutOfMemory,
    AlreadyMapped,
    NotMapped,
    NotAligned,
    NoRegion,
}

/// Numbers of the machine's memory layout.
#[derive(Clone, Copy, Debug, PartialEq, Eq, Structural)]
pub struct Layout {
    /// Where a program's text starts.
    pub text_base: usize,
    /// How large a task's stack is.
    pub stack_size: usize,
}

/// A task in the making.
pub struct TaskBuilder {
    pub team: usize,
    pub name: &'static str,
    pub entry: usize,
    pub arg: usize,
}

/// What the memory manager gave for a new task, step by step.
pub struct Grants {
    /// The lower end of the stack.
    pub stack: Result<usize, MapError>,
    /// Whether there were frames for it.
    pub frames: Result<(), MapError>,
    /// Whether they could be mapped.
    pub attached: Result<(), MapError>,
    /// The trap frame.
    pub frame: Result<TrapFrame, MapError>,
}

/// The words that every trap frame takes over from the kernel's own.
#[derive(Clone, Copy, Debug, PartialEq, Eq, Structural)]
pub struct KernelWords {
    pub kernel_satp: u64,
    pub trap_handler: u64,
    pub trap_stack_corrupt: u64,
}

/// A trap frame.
#[derive(Clone, Copy, Debug, PartialEq, Eq)]
pub struct TrapContext {
    pub kernel_satp: u64,
    pub kernel_sp: usize,
    pub trap_handler: u64,
    pub trap_stack_corrupt: u64,
    pub user_pa: usize,
    pub user_satp: u64,
    pub self_va: usize,
    pub sepc: usize,
    pub sstatus: u64,
    pub gpr: [usize; 32],
}

/// A new task, its first trap frame, and the upper end of its stack.
pub struct Spawned {
    pub task: Task,
    pub frame: TrapContext,
    pub stack_top: usize,
}

/// The address translation word of an address space.
pub open spec fn satp_of(asid: u64, root: u64) -> u64 {
    (8u64 << 60u64) | (asid << 44u64) | root
}

/// The status with which a task starts: interrupts off now, on after the return to user
/// mode.
pub open spec fn start_status(s: u64) -> u64 {
    (s & !(1u64 << 1u64) & !(1u64 << 8u64)) | (1u64 << 5u64)
}

/// The first thing that the memory manager refused.
pub open spec fn refusal(g: Grants) -> Option<MapError> {
    match g.stack {
        Err(e) => Some(e),
        Ok(_) => match g.frames {
            Err(e) => Some(e),
            Ok(_) => match g.attached {
                Err(e) => Some(e),
                Ok(_) => match g.frame {
                    Err(e) => Some(e),
                    Ok(_) => None,
                },
            },
        },
    }
}

/// Whether `s` is the task that `b` describes, with the number `id`, and its first trap frame.
pub open spec fn made(
    b: TaskBuilder,
    id: usize,
    grants: Grants,
    layout: &Layout,
    words: KernelWords,
    trap_stack: usize,
    asid: u64,
    root: u64,
    sstatus: u64,
    s: Spawned,
) -> bool {
    let trap = grants.frame->Ok_0;
    let top = grants.stack->Ok_0 + layout.stack_size;
    &&& s.stack_top == top
    &&& s.task == (Task {
        id,
        name: b.name,
        state: TaskState::Starved,
        team: b.team,
        trap,
        kernel_sp: trap_stack,
    })
    &&& s.frame.kernel_satp == words.kernel_satp
    &&& s.frame.trap_handler == words.trap_handler
    &&& s.frame.trap_stack_corrupt == words.trap_stack_corrupt
    &&& s.frame.kernel_sp == trap_stack
    &&& s.frame.user_pa == trap.pa
    &&& s.frame.user_satp == satp_of(asid, root)
    &&& s.frame.self_va == trap.va
    &&& s.frame.sepc == b.entry
    &&& s.frame.sstatus == start_status(sstatus)
    &&& s.frame.gpr@[2] == top
    &&& s.frame.gpr@[10] == b.arg
    &&& forall|i: int| 0 <= i < 32 && i != 2 && i != 10 ==> #[trigger] s.frame.gpr@[i] == 0
}

/// A task that has been let in.
pub struct Launched {
    /// Its first trap frame, to be stored at the frame's address.
    pub frame: TrapContext,
    /// That address.
    pub pa: usize,
    /// The calls that wake the sleeping harts.
    pub calls: Vec<Ipi>,
}

impl TaskBuilder {
    /// A task of `team` that starts where programs do, without an argument.
    pub fn new(team: usize, layout: &Layout) -> (b: TaskBuilder)
        ensures
            b.team == team,
            b.name == "task",
            b.entry == layout.text_base,
            b.arg == 0,
    {
        TaskBuilder { team, name: "task", entry: layout.text_base, arg: 0 }
    }

    /// With the name `name`.
    pub fn name(self, name: &'static str) -> (b: TaskBuilder)
        ensures
            b == (TaskBuilder { name, ..self }),
    {
        TaskBuilder { name, ..self }
    }

    /// With the argument `arg`.
    pub fn arg(self, arg: usize) -> (b: TaskBuilder)
        ensures
            b == (TaskBuilder { arg, ..self }),
    {
        TaskBuilder { arg, ..self }
    }

    /// With the entry point `entry`.
    pub fn entry(self, entry: usize) -> (b: TaskBuilder)
        ensures
            b == (TaskBuilder { entry, ..self }),
    {
        TaskBuilder { entry, ..self }
    }

    /// Makes the task, ready to run, and its first trap frame. The next number is used up
    /// even where the memory manager refuses.
    pub fn make(
        self,
        next_id: &mut usize,
        grants: Grants,
        layout: &Layout,
        words: KernelWords,
        trap_stack: usize,
        asid: u64,
        root: u64,
        sstatus: u64,
    ) -> (r: Result<Spawned, MapError>)
        requires
            grants.stack matches Ok(va) ==> va + layout.stack_size <= usize::MAX,
        ensures
            *final(next_id) == (*old(next_id)).wrapping_add(1),
            r is Err <==> refusal(grants) is Some,
            r is Err ==> r->Err_0 == refusal(grants)->0,
            r matches Ok(s) ==> made(self, *old(next_id), grants, layout, words, trap_stack, asid, root, sstatus, s),
    {
        let id: usize = *next_id;
        *next_id = id.wrapping_add(1);
        let stack_va: usize = match grants.stack {
            Err(e) => {
                return Err(e);
            },
            Ok(va) => va,
        };
        if let Err(e) = grants.frames {
            return Err(e);
        }
        if let Err(e) = grants.attached {
            return Err(e);
        }
        let trap: TrapFrame = match grants.frame {
            Err(e) => {
                return Err(e);
            },
            Ok(f) => f,
        };
        let stack_top: usize = stack_va + layout.stack_size;
        let mut gpr: [usize; 32] = [0usize; 32];
        gpr[2] = stack_top;
        gpr[10] = self.arg;
        let frame: TrapContext = TrapContext {
            kernel_satp: words.kernel_satp,
            kernel_sp: trap_stack,
            trap_handler: words.trap_handler,
            trap_stack_corrupt: words.trap_stack_corrupt,
            user_pa: trap.pa,
            user_satp: (8u64 << 60u64) | (asid << 44u64) | root,
            self_va: trap.va,
            sepc: self.entry,
            sstatus: (sstatus & !(1u64 << 1u64) & !(1u64 << 8u64)) | (1u64 << 5u64),
            gpr,
        };
        let task: Task = Task {
            id,
            name: self.name,
            state: TaskState::Starved,
            team: self.team,
            trap,
            kernel_sp: trap_stack,
        };
        Ok(Spawned { task, frame, stack_top })
    }

    /// Makes the task as [`TaskBuilder::make`] does and lets it in at hart `me`. A refusal
    /// leaves the scheduler as it was.
    pub fn spawn(
        self,
        floor: &mut Floor,
        me: usize,
        next_id: &mut usize,
        grants: Grants,
        layout: &Layout,
        words: KernelWords,
        asid: u64,
        root: u64,
        sstatus: u64,
    ) -> (r: Result<Launched, MapError>)
        requires
            old(floor).wf(),
            me < old(floor)@.lanes.len(),
            self.team < old(floor).teams@.len(),
            grants.stack matches Ok(va) ==> va + layout.stack_size <= usize::MAX,
        ensures
            final(floor).wf(),
            *final(next_id) == (*old(next_id)).wrapping_add(1),
            r is Err <==> refusal(grants) is Some,
            r is Err ==> r->Err_0 == refusal(grants)->0 && *final(floor) == *old(floor),
            r matches Ok(l) ==> exists|s: Spawned|
                {
                    &&& #[trigger] made(
                        self,
                        *old(next_id),
                        grants,
                        layout,
                        words,
                        old(floor)@.lanes[me as int].top,
                        asid,
                        root,
                        sstatus,
                        s,
                    )
                    &&& l.frame == s.frame
                    &&& l.pa == s.task.trap.pa
                    &&& admitted(*old(floor), *final(floor), me, s.task, l.calls@)
                },
    {
        assert(floor@.lanes[me as int] == floor.lanes@[me as int]@);
        let top: usize = floor.lanes[me].top;
        match self.make(next_id, grants, layout, words, top, asid, root, sstatus) {
            Err(e) => Err(e),
            Ok(s) => {
                let ghost whole = s;
                let pa: usize = s.task.trap.pa;
                let frame: TrapContext = s.frame;
                let calls: Vec<Ipi> = scheduler::push(floor, me, s.task);
                let l: Launched = Launched { frame, pa, calls };
                assert(made(
                    self,
                    *old(next_id),
                    grants,
                    layout,
                    words,
                    top,
                    asid,
                    root,
                    sstatus,
                    whole,
                ));
                Ok(l)
            },
        }
    }
}

/// The status with which a task starts has bit 5 set, bits 1 and 8 clear, and every other
/// bit as it was.
pub proof fn law_start_status(s: u64, b: int)
    requires
        0 <= b < 64,
    ensures
        crate::bits::bit(start_status(s), b) <==> (b == 5 || (b != 1 && b != 8
            && crate::bits::bit(s, b))),
{
    let j = b as u64;
    assert(((((s & !(1u64 << 1u64) & !(1u64 << 8u64)) | (1u64 << 5u64)) >> j) & 1 == 1) <==> (j == 5
        || (j != 1 && j != 8 && (s >> j) & 1 == 1))) by (bit_vector)
        requires
            j < 64,
    ;
}

/// The word that selects an address space has the mode 8 in its upper four bits, the space's
/// number in the sixteen below and the root's page in the lower forty-four.
pub proof fn law_satp_has_its_fields(asid: u64, root: u64)
    requires
        asid < 0x1_0000,
        root < 0x1000_0000_0000,
    ensures
        satp_of(asid, root) >> 60u64 == 8,
        (satp_of(asid, root) >> 44u64) & 0xFFFF == asid,
        satp_of(asid, root) & 0xFFF_FFFF_FFFF == root,
{
    let s = satp_of(asid, root);
    assert(s >> 60u64 == 8 && (s >> 44u64) & 0xFFFF == asid && s & 0xFFF_FFFF_FFFF == root)
        by (bit_vector)
        requires
            s == (8u64 << 60u64) | (asid << 44u64) | root,
            asid < 0x1_0000,
            root < 0x1000_0000_0000,
    ;
}

/// A spawn is refused for the first thing that could not be had, in the order stack, frames,
/// attachment, trap frame, and is not refused where all could.
pub proof fn law_refusal_is_the_first(g: Grants)
    ensures
        g.stack is Err ==> refusal(g) == Some(g.stack->Err_0),
        g.stack is Ok && g.frames is Err ==> refusal(g) == Some(g.frames->Err_0),
        g.stack is Ok && g.frames is Ok && g.attached is Err ==> refusal(g) == Some(
            g.attached->Err_0,
        ),
        g.stack is Ok && g.frames is Ok && g.attached is Ok && g.frame is Err ==> refusal(g)
            == Some(g.frame->Err_0),
        refusal(g) is None <==> g.stack is Ok && g.frames is Ok && g.attached is Ok && g.frame is Ok,
{
}

} // verus!
