//! Pies: the latches through which tasks reach holes and poles.
//!
//! A pie names a resource, says what may be done with it, and stays behind when the resource
//! goes: it is alive as long as the memo knows its resource.
use std::marker::PhantomData;
use vstd::prelude::*;
use crate::mail::memo::{Memo, ResourceId};

verus! {

/// The right to look, to receive, to read.
pub const R: u32 = 1;

/// The right to change, to send, to write.
pub const W: u32 = 2;

/// The right to grant.
pub const G: u32 = 4;

/// The right to grant back.
pub const GR: u32 = 8;

/// The length of a hole's message where it is fixed.
pub const HOLE_MSG_LEN: usize = 64;

/// What kind of resource a pie is for.
#[derive(Clone, Copy, Debug, PartialEq, Eq, Structural)]
pub enum PieKind {
    Hole,
    Pole,
}

/// A kind of resource, as a type.
pub trait ResourceKind {
    /// The kind.
    spec fn kind_spec() -> PieKind;

    /// Computes [`ResourceKind::kind_spec`].
    fn kind() -> (k: PieKind)
        ensures
            k == Self::kind_spec(),
    ;
}

/// Marks a pie for a hole.
pub struct Hole;

/// Marks a pie for a pole.
pub struct Pole;

impl ResourceKind for Hole {
    open spec fn kind_spec() -> PieKind {
        PieKind::Hole
    }

    fn kind() -> (k: PieKind) {
        PieKind::Hole
    }
}

impl ResourceKind for Pole {
    open spec fn kind_spec() -> PieKind {
        PieKind::Pole
    }

    fn kind() -> (k: PieKind) {
        PieKind::Pole
    }
}

/// A pie for a resource of the kind `T`.
pub struct Pie<T: ResourceKind> {
    pub resource: ResourceId,
    /// What may be done with the resource.
    pub rights: u32,
    /// The task that handed the pie on.
    pub vestor: Option<usize>,
    pub marker: PhantomData<T>,
}

impl<T: ResourceKind> Pie<T> {
    /// A pie with these rights.
    pub fn new(resource: ResourceId, rights: u32, vestor: Option<usize>) -> (p: Pie<T>)
        ensures
            p.resource == resource && p.rights == rights && p.vestor == vestor,
    {
        Pie { resource, rights, vestor, marker: PhantomData }
    }

    /// The resource.
    pub fn resource(&self) -> (id: ResourceId)
        ensures
            id == self.resource,
    {
        self.resource
    }

    /// The rights.
    pub fn rights(&self) -> (r: u32)
        ensures
            r == self.rights,
    {
        self.rights
    }

    /// Whether the resource still exists.
    pub fn alive(&self, memo: &Memo) -> (yes: bool)
        ensures
            yes == memo@.contains_key(self.resource.0),
    {
        memo.contains(self.resource)
    }
}

/// A pie of either kind.
pub enum AnyPie {
    Hole(Pie<Hole>),
    Pole(Pie<Pole>),
}

impl AnyPie {
    /// The resource.
    pub open spec fn resource_spec(self) -> ResourceId {
        match self {
            AnyPie::Hole(p) => p.resource,
            AnyPie::Pole(p) => p.resource,
        }
    }

    /// The rights.
    pub open spec fn rights_spec(self) -> u32 {
        match self {
            AnyPie::Hole(p) => p.rights,
            AnyPie::Pole(p) => p.rights,
        }
    }

    /// Who handed the pie on.
    pub open spec fn vestor_spec(self) -> Option<usize> {
        match self {
            AnyPie::Hole(p) => p.vestor,
            AnyPie::Pole(p) => p.vestor,
        }
    }

    /// The kind.
    pub open spec fn kind_spec(self) -> PieKind {
        match self {
            AnyPie::Hole(_) => PieKind::Hole,
            AnyPie::Pole(_) => PieKind::Pole,
        }
    }

    /// Whether the resource still exists.
    pub open spec fn alive_in(self, memo: Memo) -> bool {
        memo@.contains_key(self.resource_spec().0)
    }

    /// Computes [`AnyPie::kind_spec`].
    pub fn kind(&self) -> (k: PieKind)
        ensures
            k == self.kind_spec(),
    {
        match self {
            AnyPie::Hole(_) => Hole::kind(),
            AnyPie::Pole(_) => Pole::kind(),
        }
    }

    /// Computes [`AnyPie::resource_spec`].
    pub fn resource(&self) -> (id: ResourceId)
        ensures
            id == self.resource_spec(),
    {
        match self {
            AnyPie::Hole(p) => p.resource(),
            AnyPie::Pole(p) => p.resource(),
        }
    }

    /// Computes [`AnyPie::rights_spec`].
    pub fn rights(&self) -> (r: u32)
        ensures
            r == self.rights_spec(),
    {
        match self {
            AnyPie::Hole(p) => p.rights(),
            AnyPie::Pole(p) => p.rights(),
        }
    }

    /// Computes [`AnyPie::alive_in`].
    pub fn alive(&self, memo: &Memo) -> (yes: bool)
        ensures
            yes == self.alive_in(*memo),
    {
        match self {
            AnyPie::Hole(p) => p.alive(memo),
            AnyPie::Pole(p) => p.alive(memo),
        }
    }
}

/// The number of the next pie. Numbers are given in order.
pub fn next_pie_idx(next: &mut usize) -> (i: usize)
    ensures
        i == *old(next),
        *final(next) == (*old(next)).wrapping_add(1),
{
    let i: usize = *next;
    *next = i.wrapping_add(1);
    i
}

/// Why mail was refused.
#[derive(Clone, Copy, Debug, PartialEq, Eq, Structural)]
pub enum MailError {
    /// The rights do not suffice, or there is no such pie.
    Denied,
    /// The resource is gone.
    Dead,
    /// Not now: the slot is full, or empty.
    Busy,
    /// There is no memory.
    OOM,
    /// The size is not one of whole pages.
    NotAligned,
}

/// The number that a user sees for an error.
pub open spec fn code_of(e: MailError) -> int {
    match e {
        MailError::Denied => -1,
        MailError::Dead => -2,
        MailError::Busy => -3,
        MailError::OOM => -4,
        MailError::NotAligned => -5,
    }
}

impl MailError {
    /// Computes [`code_of`].
    pub fn code(self) -> (c: isize)
        ensures
            c == code_of(self),
    {
        match self {
            MailError::Denied => -1,
            MailError::Dead => -2,
            MailError::Busy => -3,
            MailError::OOM => -4,
            MailError::NotAligned => -5,
        }
    }
}

/// An error's number is negative and tells which error it was.
pub proof fn law_codes_tell_errors_apart(a: MailError, b: MailError)
    ensures
        code_of(a) < 0,
        code_of(a) == code_of(b) ==> a == b,
{
}

/// Whether every right of `a` is one of `b`.
pub open spec fn within(a: u32, b: u32) -> bool {
    a & b == a
}

/// Rights that are within others are within whatever those are within.
pub proof fn law_within_is_transitive(a: u32, b: u32, c: u32)
    requires
        within(a, b),
        within(b, c),
    ensures
        within(a, c),
{
    assert(a & c == a) by (bit_vector)
        requires
            a & b == a,
            b & c == b,
    ;
}

} // verus!
