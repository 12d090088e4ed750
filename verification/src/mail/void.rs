//! Voids: resources without anything to them but that they exist. Holding one is a right, and
//! there is nothing else to do with it.
use vstd::prelude::*;

verus! {

/// Whether a void can be used.
#[derive(Clone, Copy, Debug, PartialEq, Eq, Structural)]
pub enum VoidState {
    Live,
    Dead,
}

/// A void.
pub struct VoidMeta {
    state: VoidState,
    owner: usize,
}

impl VoidMeta {
    /// Whether it can be used.
    pub closed spec fn is_alive(self) -> bool {
        self.state is Live
    }

    /// The task that made it.
    pub closed spec fn owner_spec(self) -> usize {
        self.owner
    }

    /// A void of the task `owner`.
    pub fn new(owner: usize) -> (v: VoidMeta)
        ensures
            v.is_alive(),
            v.owner_spec() == owner,
    {
        VoidMeta { state: VoidState::Live, owner }
    }

    /// Computes [`VoidMeta::owner_spec`].
    pub fn owner(&self) -> (o: usize)
        ensures
            o == self.owner_spec(),
    {
        self.owner
    }

    /// Computes [`VoidMeta::is_alive`].
    pub fn alive(&self) -> (yes: bool)
        ensures
            yes == self.is_alive(),
    {
        match self.state {
            VoidState::Live => true,
            VoidState::Dead => false,
        }
    }
}

/// Seals a void: it is of no use any more. Nobody waits for one, so nobody is woken.
pub fn seal(meta: &mut VoidMeta)
    ensures
        !final(meta).is_alive(),
        final(meta).owner_spec() == old(meta).owner_spec(),
{
    meta.state = VoidState::Dead;
}

} // verus!
