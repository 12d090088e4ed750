//! The memo: the resources that exist, by number.
use vstd::prelude::*;
use crate::mail::pie::PieKind;
use crate::table::Table;

verus! {

/// The number of a resource. No resource has the number zero.
#[derive(Clone, Copy, Debug, PartialEq, Eq, Structural)]
pub struct ResourceId(pub usize);

/// A resource that the memo keeps: its kind, and its number among those of the kind.
#[derive(Clone, Copy, Debug, PartialEq, Eq, Structural)]
pub enum Meta {
    Hole(usize),
    Pole(usize),
}

impl Meta {
    /// The kind.
    pub open spec fn kind_spec(self) -> PieKind {
        match self {
            Meta::Hole(_) => PieKind::Hole,
            Meta::Pole(_) => PieKind::Pole,
        }
    }

    /// Computes [`Meta::kind_spec`].
    pub fn kind(self) -> (k: PieKind)
        ensures
            k == self.kind_spec(),
    {
        match self {
            Meta::Hole(_) => PieKind::Hole,
            Meta::Pole(_) => PieKind::Pole,
        }
    }
}

/// The memo. It keeps a resource until the resource is sealed.
pub struct Memo {
    metas: Table<usize, Meta>,
    next: usize,
}

impl View for Memo {
    type V = Map<usize, Meta>;

    closed spec fn view(&self) -> Map<usize, Meta> {
        self.metas@
    }
}

impl Memo {
    /// The next number.
    pub closed spec fn next(self) -> usize {
        self.next
    }

    /// An empty memo.
    pub fn new() -> (m: Memo)
        ensures
            m@ == Map::<usize, Meta>::empty(),
            m.next() == 1,
    {
        Memo { metas: Table::new(), next: 1 }
    }

    /// A number that no resource has had.
    pub fn allocate_id(&mut self) -> (id: ResourceId)
        requires
            old(self).next() < usize::MAX,
        ensures
            id.0 == old(self).next(),
            final(self).next() == old(self).next() + 1,
            final(self)@ == old(self)@,
    {
        let id: usize = self.next;
        self.next = id + 1;
        ResourceId(id)
    }

    /// Keeps a resource.
    pub fn insert(&mut self, id: ResourceId, meta: Meta)
        ensures
            final(self)@ == old(self)@.insert(id.0, meta),
            final(self).next() == old(self).next(),
    {
        self.metas.insert(id.0, meta);
    }

    /// Lets a resource go, when it is sealed.
    pub fn remove(&mut self, id: ResourceId)
        ensures
            final(self)@ == old(self)@.remove(id.0),
            final(self).next() == old(self).next(),
    {
        self.metas.remove(id.0);
    }

    /// The resource `id`.
    pub fn lookup(&self, id: ResourceId) -> (meta: Option<Meta>)
        ensures
            meta == (if self@.contains_key(id.0) {
                Some(self@[id.0])
            } else {
                None
            }),
    {
        match self.metas.get(id.0) {
            Some(m) => Some(*m),
            None => None,
        }
    }

    /// Whether there is a resource `id`.
    pub fn contains(&self, id: ResourceId) -> (yes: bool)
        ensures
            yes == self@.contains_key(id.0),
    {
        self.metas.contains(id.0)
    }
}

} // verus!
