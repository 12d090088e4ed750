//! Tasks of the room.
use vstd::prelude::*;
use crate::room::messenger::wait::site::WakeKey;

verus! {

/// A stretch of an address space.
#[derive(Clone, Copy, Debug, PartialEq, Eq, Structural)]
pub struct Span {
    pub va: usize,
    pub size: usize,
}

/// Who a task is; fixed for its whole life.
#[derive(Clone, Copy, Debug, PartialEq, Eq, Structural)]
pub struct TaskIdent {
    pub id: usize,
    /// The team it belongs to.
    pub team: usize,
    /// The address space of that team.
    pub space: usize,
    /// Whether that space is the kernel's own.
    pub kernel: bool,
    /// The physical address of its trap frame.
    pub frame: usize,
    /// Its stack, in its address space.
    pub stack: Span,
    /// Its trap frame, in its address space.
    pub trap: Span,
}

/// The words of a trap frame that the scheduler writes.
#[derive(Clone, Copy, Debug, PartialEq, Eq, Structural)]
pub struct FrameWords {
    /// The kernel stack on which the next trap is taken.
    pub kernel_sp: usize,
    /// The anchor of the hart that runs the task.
    pub tp: usize,
}

/// Where a task stands in its life.
#[derive(Clone, Copy, Debug, PartialEq, Eq, Structural)]
pub enum TaskState {
    /// Made, not yet let go.
    Held,
    /// Ready to run.
    Starved,
    /// On a hart, with this much of its quantum left.
    Running { ticks_left: u32 },
    /// Waiting for `key`, registered under `ticket`.
    Blocked { key: WakeKey, ticket: u64 },
    /// Stopped for good, its last rites still to come.
    Doomed,
    /// Its last rites are done.
    Reaped,
}

/// The kind of a [`TaskState`].
#[derive(Clone, Copy, Debug, PartialEq, Eq, Structural)]
pub enum TaskTag {
    Held,
    Starved,
    Running,
    Blocked,
    Doomed,
    Reaped,
}

impl TaskState {
    /// The kind of this state.
    pub open spec fn tag_spec(self) -> TaskTag {
        match self {
            TaskState::Held => TaskTag::Held,
            TaskState::Starved => TaskTag::Starved,
            TaskState::Running { .. } => TaskTag::Running,
            TaskState::Blocked { .. } => TaskTag::Blocked,
            TaskState::Doomed => TaskTag::Doomed,
            TaskState::Reaped => TaskTag::Reaped,
        }
    }
}

/// The one container that holds a task.
pub enum Place {
    /// In none: on the way from one to the next.
    Flight,
    /// With its team, not yet let go.
    Team,
    /// In the running slot of this hart.
    Slot(int),
    /// In the ready queue of this hart.
    Lane(int),
    /// In the waiting line at this key.
    Site(WakeKey),
    /// Among the husks.
    Husk,
    /// Cleared away.
    Gone,
}

/// A task.
pub struct Task {
    pub ident: TaskIdent,
    pub words: FrameWords,
    pub state: TaskState,
    /// The teams that it has founded.
    pub heirs: Vec<usize>,
    /// Whether it has been cleared away.
    pub buried: bool,
    /// The next task of the chain that this one is in.
    pub link: Option<usize>,
    /// The container that holds it.
    pub place: Ghost<Place>,
}

/// A task without what only its containers know.
#[verifier::ext_equal]
pub struct TaskBody {
    pub ident: TaskIdent,
    pub words: FrameWords,
    pub state: TaskState,
    pub heirs: Seq<usize>,
    pub buried: bool,
}

impl Task {
    /// What the task is, wherever it stands.
    pub open spec fn body(self) -> TaskBody {
        TaskBody {
            ident: self.ident,
            words: self.words,
            state: self.state,
            heirs: self.heirs@,
            buried: self.buried,
        }
    }

    /// A task that has been made and not yet let go.
    pub fn new(ident: TaskIdent) -> (t: Task)
        ensures
            t.ident == ident,
            t.words == (FrameWords { kernel_sp: 0, tp: 0 }),
            t.state == TaskState::Held,
            t.heirs@.len() == 0,
            !t.buried,
            t.link is None,
            t.place@ == Place::Team,
    {
        Task {
            ident,
            words: FrameWords { kernel_sp: 0, tp: 0 },
            state: TaskState::Held,
            heirs: Vec::new(),
            buried: false,
            link: None,
            place: Ghost(Place::Team),
        }
    }

    /// The kind of the task's state.
    pub fn tag(&self) -> (t: TaskTag)
        ensures
            t == self.state.tag_spec(),
    {
        match self.state {
            TaskState::Held => TaskTag::Held,
            TaskState::Starved => TaskTag::Starved,
            TaskState::Running { .. } => TaskTag::Running,
            TaskState::Blocked { .. } => TaskTag::Blocked,
            TaskState::Doomed => TaskTag::Doomed,
            TaskState::Reaped => TaskTag::Reaped,
        }
    }
}

} // verus!
