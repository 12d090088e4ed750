//! The resource table: where holes and poles are found by number. An entry does not keep its
//! resource.
use vstd::prelude::*;
use crate::mail::pie::PieKind;
use crate::table::Table;

pub use crate::mail::memo::ResourceId;

verus! {

/// The table. Each entry is the number under which the resource's owner knows it.
pub struct ResourceTable {
    holes: Table<usize, usize>,
    poles: Table<usize, usize>,
    next: usize,
}

impl ResourceTable {
    /// The holes.
    pub closed spec fn holes(self) -> Map<usize, usize> {
        self.holes@
    }

    /// The poles.
    pub closed spec fn poles(self) -> Map<usize, usize> {
        self.poles@
    }

    /// The next number.
    pub closed spec fn next(self) -> usize {
        self.next
    }

    /// An empty table.
    pub fn new() -> (t: ResourceTable)
        ensures
            t.holes() == Map::<usize, usize>::empty(),
            t.poles() == Map::<usize, usize>::empty(),
            t.next() == 1,
    {
        ResourceTable { holes: Table::new(), poles: Table::new(), next: 1 }
    }

    /// A number that no resource has had.
    pub fn allocate_id(&mut self) -> (id: ResourceId)
        requires
            old(self).next() < usize::MAX,
        ensures
            id.0 == old(self).next(),
            final(self).next() == old(self).next() + 1,
            final(self).holes() == old(self).holes(),
            final(self).poles() == old(self).poles(),
    {
        let id: usize = self.next;
        self.next = id + 1;
        ResourceId(id)
    }

    /// Enters a hole.
    pub fn insert_hole(&mut self, id: ResourceId, hole: usize)
        ensures
            final(self).holes() == old(self).holes().insert(id.0, hole),
            final(self).poles() == old(self).poles(),
            final(self).next() == old(self).next(),
    {
        self.holes.insert(id.0, hole);
    }

    /// Enters a pole.
    pub fn insert_pole(&mut self, id: ResourceId, pole: usize)
        ensures
            final(self).poles() == old(self).poles().insert(id.0, pole),
            final(self).holes() == old(self).holes(),
            final(self).next() == old(self).next(),
    {
        self.poles.insert(id.0, pole);
    }

    /// Strikes an entry of this kind.
    pub fn remove(&mut self, id: ResourceId, kind: PieKind)
        ensures
            final(self).holes() == (if kind is Hole {
                old(self).holes().remove(id.0)
            } else {
                old(self).holes()
            }),
            final(self).poles() == (if kind is Pole {
                old(self).poles().remove(id.0)
            } else {
                old(self).poles()
            }),
            final(self).next() == old(self).next(),
    {
        match kind {
            PieKind::Hole => {
                self.holes.remove(id.0);
            },
            PieKind::Pole => {
                self.poles.remove(id.0);
            },
        }
    }

    /// The hole `id`.
    pub fn lookup_hole(&self, id: ResourceId) -> (hole: Option<usize>)
        ensures
            hole == (if self.holes().contains_key(id.0) {
                Some(self.holes()[id.0])
            } else {
                None
            }),
    {
        match self.holes.get(id.0) {
            Some(h) => Some(*h),
            None => None,
        }
    }

    /// The pole `id`.
    pub fn lookup_pole(&self, id: ResourceId) -> (pole: Option<usize>)
        ensures
            pole == (if self.poles().contains_key(id.0) {
                Some(self.poles()[id.0])
            } else {
                None
            }),
    {
        match self.poles.get(id.0) {
            Some(p) => Some(*p),
            None => None,
        }
    }
}

} // verus!
