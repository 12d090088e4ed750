//! Poles: whole pages of memory that are lent to address spaces.
//!
//! Each pie through which a pole was opened has a view of its own, known by the pie's token:
//! narrowing and shutting touch that view alone. The memory manager does the mapping; what it
//! answered comes in as arguments.
use vstd::prelude::*;
use crate::unit::task::Span;
use crate::room::messenger::handoff::GateError;
use crate::task::PAGE_SIZE;

verus! {

/// Whether a pole can be used.
#[derive(Clone, Copy, Debug, PartialEq, Eq, Structural)]
pub enum PoleState {
    Live,
    Dead,
}

/// Whose memory it is.
#[derive(Clone, Copy, Debug, PartialEq, Eq, Structural)]
pub enum Payload {
    /// The allocator's: it goes back there.
    Frames,
    /// Somebody else's, such as a device's: it is neither cleared nor given back.
    Region,
}

/// A pole as one pie sees it.
#[derive(Clone, Copy, Debug, PartialEq, Eq, Structural)]
pub struct Lent {
    pub token: usize,
    pub space: usize,
    pub span: Span,
}

/// A pole.
pub struct PoleMeta {
    pub state: PoleState,
    pub payload: Payload,
    /// Where it lies in physical memory.
    pub base: usize,
    /// How large it is: whole pages.
    pub size: usize,
    pub mappings: Vec<Lent>,
    pub owner: usize,
}

/// Whether no memory of this size can be asked for.
pub open spec fn too_large(size: usize) -> bool {
    size > usize::MAX / 2
}

/// Whether memory of `size` bytes is not a pole: a pole has whole pages, and not too many.
pub open spec fn misfit(size: usize) -> bool {
    size == 0 || size % PAGE_SIZE != 0 || too_large(size)
}

/// Whether `p` is a pole that nobody has opened yet.
pub open spec fn is_fresh(
    p: PoleMeta,
    payload: Payload,
    base: usize,
    size: usize,
    owner: usize,
) -> bool {
    &&& p.state is Live
    &&& p.payload == payload
    &&& p.base == base
    &&& p.size == size
    &&& p.mappings@.len() == 0
    &&& p.owner == owner
}

/// The first place at which `token` has a view, from `from` on.
pub open spec fn view_of(list: Seq<Lent>, token: usize, from: int) -> Option<int>
    decreases list.len() - from,
{
    if from >= list.len() {
        None
    } else if list[from].token == token {
        Some(from)
    } else {
        view_of(list, token, from + 1)
    }
}

/// The pages that the memory manager is to take back where it put them at `placed` for nothing.
pub open spec fn spare(placed: Option<usize>, space: usize, size: usize) -> Option<(usize, Span)> {
    match placed {
        Some(va) => Some((space, Span { va, size })),
        None => None,
    }
}

fn take_back(placed: Option<usize>, space: usize, size: usize) -> (undo: Option<(usize, Span)>)
    ensures
        undo == spare(placed, space, size),
{
    match placed {
        Some(va) => Some((space, Span { va, size })),
        None => None,
    }
}

/// What came of opening a pole: the view's address, or why not, and a view that the memory
/// manager is to take back.
pub struct Opening {
    pub r: Result<usize, GateError>,
    pub undo: Option<(usize, Span)>,
}

impl PoleMeta {
    /// A pole in memory of the allocator's. `grant` is where the memory lies, cleared, if
    /// there was any.
    pub fn allocate(size: usize, owner: usize, grant: Option<usize>) -> (r: Result<
        PoleMeta,
        GateError,
    >)
        ensures
            misfit(size) ==> r == Err::<PoleMeta, GateError>(GateError::NotAligned),
            !misfit(size) && grant is None ==> r == Err::<PoleMeta, GateError>(GateError::OoM),
            !misfit(size) && grant is Some ==> r is Ok && is_fresh(
                r->Ok_0,
                Payload::Frames,
                grant->0,
                size,
                owner,
            ),
    {
        if size == 0 || size % PAGE_SIZE != 0 || size > usize::MAX / 2 {
            return Err(GateError::NotAligned);
        }
        match grant {
            None => Err(GateError::OoM),
            Some(base) => Ok(
                PoleMeta {
                    state: PoleState::Live,
                    payload: Payload::Frames,
                    base,
                    size,
                    mappings: Vec::new(),
                    owner,
                },
            ),
        }
    }

    /// A pole over memory that is somebody else's: the pages that the `reg` bytes from `base`
    /// on lie in. The first page there is cannot be one.
    pub fn region(base: usize, reg: usize, owner: usize) -> (r: Result<PoleMeta, GateError>)
        requires
            base + reg <= usize::MAX ==> base + reg + PAGE_SIZE - 1 <= usize::MAX,
        ensures
            r is Err <==> reg == 0 || base + reg > usize::MAX || base < PAGE_SIZE,
            r matches Err(e) ==> e == GateError::NotAligned,
            r matches Ok(p) ==> {
                &&& is_fresh(p, Payload::Region, p.base, p.size, owner)
                &&& p.base % PAGE_SIZE == 0
                &&& p.size % PAGE_SIZE == 0
                &&& p.base <= base < p.base + PAGE_SIZE
                &&& base + reg <= p.base + p.size < base + reg + PAGE_SIZE
            },
    {
        if reg == 0 {
            return Err(GateError::NotAligned);
        }
        let end: usize = match base.checked_add(reg) {
            None => {
                return Err(GateError::NotAligned);
            },
            Some(end) => end,
        };
        let lo: usize = base - base % PAGE_SIZE;
        let hi: usize = (end + (PAGE_SIZE - 1)) / PAGE_SIZE * PAGE_SIZE;
        if lo == 0 {
            return Err(GateError::NotAligned);
        }
        let size: usize = hi - lo;
        Ok(
            PoleMeta {
                state: PoleState::Live,
                payload: Payload::Region,
                base: lo,
                size,
                mappings: Vec::new(),
                owner,
            },
        )
    }

    /// The task that made it.
    pub fn owner(&self) -> (o: usize)
        ensures
            o == self.owner,
    {
        self.owner
    }

    /// Whether it can be used.
    pub fn alive(&self) -> (yes: bool)
        ensures
            yes == (self.state is Live),
    {
        match self.state {
            PoleState::Live => true,
            PoleState::Dead => false,
        }
    }

    fn find(&self, token: usize) -> (at: Option<usize>)
        ensures
            at is None <==> view_of(self.mappings@, token, 0) is None,
            at matches Some(i) ==> view_of(self.mappings@, token, 0) == Some(i as int) && i
                < self.mappings@.len(),
    {
        let mut i: usize = 0;
        while i < self.mappings.len()
            invariant
                i <= self.mappings@.len(),
                view_of(self.mappings@, token, 0) == view_of(self.mappings@, token, i as int),
            decreases self.mappings@.len() - i,
        {
            if self.mappings[i].token == token {
                return Some(i);
            }
            i += 1;
        }
        None
    }

    /// Gives `token` a view in `space`. One that has a view already keeps it. `placed` is
    /// where the memory manager put the pages, `room` whether the view can be recorded. Pages
    /// that were put somewhere and are not the view are to be taken back.
    pub fn open_into(
        &mut self,
        token: usize,
        space: usize,
        placed: Option<usize>,
        room: bool,
    ) -> (o: Opening)
        ensures
            ({
                let at = view_of(old(self).mappings@, token, 0);
                if at is Some {
                    &&& o.r == Ok::<usize, GateError>(old(self).mappings@[at->0].span.va)
                    &&& o.undo == spare(placed, space, old(self).size)
                    &&& *final(self) == *old(self)
                } else if placed is None {
                    &&& o.r == Err::<usize, GateError>(GateError::OoM)
                    &&& o.undo is None
                    &&& *final(self) == *old(self)
                } else if !room {
                    &&& o.r == Err::<usize, GateError>(GateError::OoM)
                    &&& o.undo == Some((space, Span { va: placed->0, size: old(self).size }))
                    &&& *final(self) == *old(self)
                } else {
                    &&& o.r == Ok::<usize, GateError>(placed->0)
                    &&& o.undo is None
                    &&& final(self).mappings@ == old(self).mappings@.push(
                        Lent {
                            token,
                            space,
                            span: Span { va: placed->0, size: old(self).size },
                        },
                    )
                    &&& *final(self) == (PoleMeta {
                        mappings: final(self).mappings,
                        ..*old(self)
                    })
                }
            }),
    {
        if let Some(i) = self.find(token) {
            return Opening {
                r: Ok(self.mappings[i].span.va),
                undo: take_back(placed, space, self.size),
            };
        }
        match placed {
            None => Opening { r: Err(GateError::OoM), undo: None },
            Some(va) => {
                let span: Span = Span { va, size: self.size };
                if !room {
                    return Opening { r: Err(GateError::OoM), undo: Some((space, span)) };
                }
                self.mappings.push(Lent { token, space, span });
                Opening { r: Ok(va), undo: None }
            },
        }
    }

    /// What narrowing has to change for `token`: its view, if it has one and the address
    /// space still exists.
    pub fn target(&self, token: usize, exists: bool) -> (t: Option<Lent>)
        ensures
            t == (match view_of(self.mappings@, token, 0) {
                Some(at) if exists => Some(self.mappings@[at]),
                _ => None,
            }),
    {
        match self.find(token) {
            Some(i) => if exists {
                Some(self.mappings[i])
            } else {
                None
            },
            None => None,
        }
    }

    /// Takes the view of `token` away; without one there is nothing to do. `exists` says
    /// whether the address space still does, `taken` whether the memory manager took the
    /// view back.
    pub fn shut_from(&mut self, token: usize, exists: bool, taken: bool) -> (r: Result<
        (),
        GateError,
    >)
        ensures
            r == (if view_of(old(self).mappings@, token, 0) is Some && exists && !taken {
                Err::<(), GateError>(GateError::Denied)
            } else {
                Ok::<(), GateError>(())
            }),
            final(self).mappings@ == (match view_of(old(self).mappings@, token, 0) {
                Some(at) => old(self).mappings@.remove(at),
                None => old(self).mappings@,
            }),
            *final(self) == (PoleMeta { mappings: final(self).mappings, ..*old(self) }),
    {
        match self.find(token) {
            None => Ok(()),
            Some(i) => {
                self.mappings.remove(i);
                if exists && !taken {
                    Err(GateError::Denied)
                } else {
                    Ok(())
                }
            },
        }
    }

    /// The pole goes: its views are taken back, and its memory if it is the allocator's.
    pub fn retire(&mut self) -> (r: (Vec<Lent>, bool))
        ensures
            r.0@ == old(self).mappings@,
            r.1 == (old(self).payload is Frames),
            final(self).state is Dead,
            final(self).mappings@.len() == 0,
            final(self).payload == old(self).payload && final(self).base == old(self).base
                && final(self).size == old(self).size && final(self).owner == old(self).owner,
    {
        self.state = PoleState::Dead;
        let mut views: Vec<Lent> = Vec::new();
        std::mem::swap(&mut views, &mut self.mappings);
        let own: bool = match self.payload {
            Payload::Frames => true,
            Payload::Region => false,
        };
        (views, own)
    }
}

/// What came of opening a pole: the view's address and size, or why not, and a view that the
/// memory manager is to take back.
pub struct Opened {
    pub r: Result<(usize, usize), GateError>,
    pub undo: Option<(usize, Span)>,
}

/// Opens a pole for the pie `token`; see [`PoleMeta::open_into`]. A dead one cannot be
/// opened. Where a view comes of it, the memory manager sets the view's flags.
pub fn open(
    meta: &mut PoleMeta,
    token: usize,
    space: usize,
    placed: Option<usize>,
    room: bool,
) -> (o: Opened)
    ensures
        ({
            let at = view_of(old(meta).mappings@, token, 0);
            if !(old(meta).state is Live) {
                &&& o.r == Err::<(usize, usize), GateError>(GateError::Dead)
                &&& o.undo == spare(placed, space, old(meta).size)
                &&& *final(meta) == *old(meta)
            } else if at is Some {
                &&& o.r == Ok::<(usize, usize), GateError>(
                    (old(meta).mappings@[at->0].span.va, old(meta).size),
                )
                &&& o.undo == spare(placed, space, old(meta).size)
                &&& *final(meta) == *old(meta)
            } else if placed is None || !room {
                &&& o.r == Err::<(usize, usize), GateError>(GateError::OoM)
                &&& o.undo == spare(placed, space, old(meta).size)
                &&& *final(meta) == *old(meta)
            } else {
                &&& o.r == Ok::<(usize, usize), GateError>((placed->0, old(meta).size))
                &&& o.undo is None
                &&& final(meta).mappings@ == old(meta).mappings@.push(
                    Lent {
                        token,
                        space,
                        span: Span { va: placed->0, size: old(meta).size },
                    },
                )
                &&& *final(meta) == (PoleMeta { mappings: final(meta).mappings, ..*old(meta) })
            }
        }),
{
    if !meta.alive() {
        return Opened { r: Err(GateError::Dead), undo: take_back(placed, space, meta.size) };
    }
    let o: Opening = meta.open_into(token, space, placed, room);
    let r: Result<(usize, usize), GateError> = match o.r {
        Ok(va) => Ok((va, meta.size)),
        Err(e) => Err(e),
    };
    Opened { r, undo: o.undo }
}

/// Shuts the view of `token`, of a live pole or a dead one: see [`PoleMeta::shut_from`].
pub fn shut(meta: &mut PoleMeta, token: usize, exists: bool, taken: bool) -> (r: Result<
    (),
    GateError,
>)
    ensures
        r == (if view_of(old(meta).mappings@, token, 0) is Some && exists && !taken {
            Err::<(), GateError>(GateError::Denied)
        } else {
            Ok::<(), GateError>(())
        }),
        final(meta).mappings@ == (match view_of(old(meta).mappings@, token, 0) {
            Some(at) => old(meta).mappings@.remove(at),
            None => old(meta).mappings@,
        }),
        *final(meta) == (PoleMeta { mappings: final(meta).mappings, ..*old(meta) }),
{
    meta.shut_from(token, exists, taken)
}

/// Narrows the view of `token`, if it has one in an address space that `exists`; `changed` says
/// whether the memory manager changed the flags of what [`PoleMeta::target`] gives.
pub fn narrow(meta: &PoleMeta, token: usize, exists: bool, changed: bool) -> (r: Result<
    (),
    GateError,
>)
    ensures
        r == (if !(meta.state is Live) {
            Err::<(), GateError>(GateError::Dead)
        } else if view_of(meta.mappings@, token, 0) is Some && exists && !changed {
            Err::<(), GateError>(GateError::Denied)
        } else {
            Ok::<(), GateError>(())
        }),
{
    if !meta.alive() {
        return Err(GateError::Dead);
    }
    if meta.target(token, exists).is_some() && !changed {
        return Err(GateError::Denied);
    }
    Ok(())
}

/// Seals a pole: it is of no use any more. Its memory and its views go with the last pie.
pub fn seal(meta: &mut PoleMeta)
    ensures
        *final(meta) == (PoleMeta { state: PoleState::Dead, ..*old(meta) }),
{
    meta.state = PoleState::Dead;
}

/// A pole over memory that the allocator gave.
pub fn meta(size: usize, owner: usize, grant: Option<usize>) -> (r: Result<PoleMeta, GateError>)
    ensures
        misfit(size) ==> r == Err::<PoleMeta, GateError>(GateError::NotAligned),
        !misfit(size) && grant is None ==> r == Err::<PoleMeta, GateError>(GateError::OoM),
        !misfit(size) && grant is Some ==> r is Ok && is_fresh(
            r->Ok_0,
            Payload::Frames,
            grant->0,
            size,
            owner,
        ),
{
    PoleMeta::allocate(size, owner, grant)
}

/// A pole over memory that is somebody else's: see [`PoleMeta::region`].
pub fn region(base: usize, reg: usize, owner: usize) -> (r: Result<PoleMeta, GateError>)
    requires
        base + reg <= usize::MAX ==> base + reg + PAGE_SIZE - 1 <= usize::MAX,
    ensures
        r is Err <==> reg == 0 || base + reg > usize::MAX || base < PAGE_SIZE,
        r matches Err(e) ==> e == GateError::NotAligned,
        r matches Ok(p) ==> {
            &&& is_fresh(p, Payload::Region, p.base, p.size, owner)
            &&& p.base % PAGE_SIZE == 0
            &&& p.size % PAGE_SIZE == 0
            &&& p.base <= base < p.base + PAGE_SIZE
            &&& base + reg <= p.base + p.size < base + reg + PAGE_SIZE
        },
{
    PoleMeta::region(base, reg, owner)
}

/// A view that was just recorded is the one that its token has, and taking it away leaves the
/// views as they were.
pub proof fn law_open_then_shut(list: Seq<Lent>, v: Lent)
    requires
        view_of(list, v.token, 0) is None,
    ensures
        view_of(list.push(v), v.token, 0) == Some(list.len() as int),
        list.push(v).remove(list.len() as int) == list,
{
    lemma_view_pushed(list, v, 0);
    assert(list.push(v).remove(list.len() as int) =~= list);
}

proof fn lemma_view_pushed(list: Seq<Lent>, v: Lent, from: int)
    requires
        0 <= from <= list.len(),
        view_of(list, v.token, from) is None,
    ensures
        view_of(list.push(v), v.token, from) == Some(list.len() as int),
    decreases list.len() - from,
{
    if from < list.len() {
        lemma_view_pushed(list, v, from + 1);
    }
}

} // verus!
