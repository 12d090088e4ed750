//! Teams of the plain scheduler: the tasks that share an address space.
use vstd::prelude::*;
use crate::task::{Layout, TaskBuilder};

verus! {

/// A team.
pub struct Team {
    /// Its number.
    pub id: usize,
    /// The number of its address space.
    pub space: usize,
    /// The numbers of its tasks.
    pub tasks: Vec<usize>,
}

/// `ids` without `exited` and without those that are not in `alive`.
pub open spec fn pruned(ids: Seq<usize>, alive: Seq<usize>, exited: usize) -> Seq<usize>
    decreases ids.len(),
{
    if ids.len() == 0 {
        Seq::empty()
    } else if ids.last() != exited && alive.contains(ids.last()) {
        pruned(ids.drop_last(), alive, exited).push(ids.last())
    } else {
        pruned(ids.drop_last(), alive, exited)
    }
}

/// Whether `list` holds `x`.
pub fn listed(list: &Vec<usize>, x: usize) -> (yes: bool)
    ensures
        yes == list@.contains(x),
{
    let mut i: usize = 0;
    while i < list.len()
        invariant
            i <= list@.len(),
            forall|j: int| 0 <= j < i ==> list@[j] != x,
        decreases list@.len() - i,
    {
        if list[i] == x {
            assert(list@[i as int] == x);
            return true;
        }
        i += 1;
    }
    false
}

impl Team {
    /// Notes a new task.
    pub fn push_task(&mut self, id: usize)
        ensures
            final(self).tasks@ == old(self).tasks@.push(id),
            final(self).id == old(self).id,
            final(self).space == old(self).space,
    {
        self.tasks.push(id);
    }

    /// Forgets `exited` and every task that is not in `alive`; the others keep their order.
    pub fn prune_tasks(&mut self, alive: &Vec<usize>, exited: usize)
        ensures
            final(self).tasks@ == pruned(old(self).tasks@, alive@, exited),
            final(self).id == old(self).id,
            final(self).space == old(self).space,
    {
        let ghost all = self.tasks@;
        let mut kept: Vec<usize> = Vec::new();
        let mut i: usize = 0;
        assert(all.take(0) =~= Seq::<usize>::empty());
        while i < self.tasks.len()
            invariant
                i <= all.len(),
                all == self.tasks@,
                self.id == old(self).id,
                self.space == old(self).space,
                kept@ == pruned(all.take(i as int), alive@, exited),
            decreases all.len() - i,
        {
            let id: usize = self.tasks[i];
            assert(all.take(i + 1).drop_last() =~= all.take(i as int));
            assert(all.take(i + 1).last() == id);
            if id != exited && listed(alive, id) {
                kept.push(id);
            }
            i += 1;
        }
        assert(all.take(i as int) =~= all);
        self.tasks = kept;
    }

    /// A task of this team in the making.
    pub fn task(&self, layout: &Layout) -> (b: TaskBuilder)
        ensures
            b.team == self.id,
            b.name == "task",
            b.entry == layout.text_base,
            b.arg == 0,
    {
        TaskBuilder::new(self.id, layout)
    }
}

/// A team in the making.
pub struct TeamBuilder {
    pub space: usize,
}

impl TeamBuilder {
    /// A team in the address space `space`.
    pub fn new(space: usize) -> (b: TeamBuilder)
        ensures
            b.space == space,
    {
        TeamBuilder { space }
    }

    /// Makes the team, which has no tasks yet.
    pub fn spawn(self, id: usize) -> (t: Team)
        ensures
            t.id == id,
            t.space == self.space,
            t.tasks@.len() == 0,
    {
        Team { id, space: self.space, tasks: Vec::new() }
    }
}

/// The kernel's own team: made on the first call, in the kernel's address space `space`, and
/// the same ever after.
pub fn kernel(slot: &mut Option<Team>, space: usize) -> (t: &Team)
    ensures
        *final(slot) == Some(*t),
        *old(slot) matches Some(was) ==> *t == was,
        *old(slot) is None ==> t.id == 0 && t.space == space && t.tasks@.len() == 0,
{
    if slot.is_none() {
        *slot = Some(TeamBuilder::new(space).spawn(0));
    }
    match slot.as_ref() {
        Some(t) => t,
        None => {
            let t: &Team = slot.as_ref().unwrap();
            t
        },
    }
}

/// A task that has left its team's list is not on it any more, and every other living task
/// stays.
pub proof fn law_prune(ids: Seq<usize>, alive: Seq<usize>, exited: usize, x: usize)
    ensures
        pruned(ids, alive, exited).contains(x) <==> ids.contains(x) && x != exited
            && alive.contains(x),
    decreases ids.len(),
{
    if ids.len() > 0 {
        law_prune(ids.drop_last(), alive, exited, x);
        let rest = pruned(ids.drop_last(), alive, exited);
        assert(ids =~= ids.drop_last().push(ids.last()));
        crate::room::scheduler::hart::lemma_push_set(ids.drop_last(), ids.last());
        assert(ids.contains(x) <==> ids.to_set().contains(x));
        assert(ids.drop_last().contains(x) <==> ids.drop_last().to_set().contains(x));
        crate::room::scheduler::hart::lemma_push_set(rest, ids.last());
        assert(rest.push(ids.last()).contains(x) <==> rest.push(ids.last()).to_set().contains(x));
        assert(rest.contains(x) <==> rest.to_set().contains(x));
    }
}

} // verus!
