//! Chains of tasks, strung through the tasks themselves.
//!
//! A chain keeps its two ends; every task on it names the next one. Putting a task on
//! a chain or taking one off writes links only and needs no memory, so waking a task
//! cannot fail.
use vstd::prelude::*;
use crate::table::Table;
use crate::unit::task::{Place, Task};

verus! {

/// A chain of tasks in first-in first-out order.
pub struct Chain {
    head: Option<usize>,
    tail: Option<usize>,
    order: Ghost<Seq<usize>>,
    place: Ghost<Place>,
}

/// Whether two task tables differ in nothing but links and places.
pub open spec fn same_bodies(a: Map<usize, Task>, b: Map<usize, Task>) -> bool {
    &&& a.dom() == b.dom()
    &&& forall|k: usize| #[trigger] a.contains_key(k) ==> b[k].body() == a[k].body()
}

/// Whether two task tables agree on every task that is in `place` in either.
pub open spec fn agree_on(a: Map<usize, Task>, b: Map<usize, Task>, place: Place) -> bool {
    &&& forall|k: usize| #[trigger]
        a.contains_key(k) && a[k].place@ == place ==> b.contains_key(k) && b[k].place@ == place
            && b[k].link == a[k].link
    &&& forall|k: usize| #[trigger]
        b.contains_key(k) && b[k].place@ == place ==> a.contains_key(k) && a[k].place@ == place
}

impl Chain {
    /// The tasks on the chain, first in first.
    pub closed spec fn order(self) -> Seq<usize> {
        self.order@
    }

    /// The container that this chain is.
    pub closed spec fn place(self) -> Place {
        self.place@
    }

    /// Whether the links of `tasks` are those of this chain, and the tasks in its
    /// place are those on it.
    pub closed spec fn wf(self, tasks: Map<usize, Task>) -> bool {
        let s = self.order@;
        &&& self.head == (if s.len() == 0 {
            None
        } else {
            Some(s[0])
        })
        &&& self.tail == (if s.len() == 0 {
            None
        } else {
            Some(s[s.len() - 1])
        })
        &&& strung(s, tasks, self.place@)
    }

    /// What a well-formed chain says of the tasks on it.
    pub proof fn lemma_members(self, tasks: Map<usize, Task>)
        requires
            self.wf(tasks),
        ensures
            self.order().no_duplicates(),
            forall|k: usize| #[trigger]
                self.order().contains(k) <==> tasks.contains_key(k) && tasks[k].place@
                    == self.place(),
            forall|i: int|
                0 <= i < self.order().len() ==> tasks.contains_key(#[trigger] self.order()[i])
                    && tasks[self.order()[i]].place@ == self.place(),
    {
    }

    /// A chain does not notice changes to tasks that are not in its place.
    pub proof fn lemma_frame(self, a: Map<usize, Task>, b: Map<usize, Task>)
        requires
            self.wf(a),
            agree_on(a, b, self.place()),
        ensures
            self.wf(b),
    {
        let s = self.order@;
        assert forall|i: int| 0 <= i < s.len() implies b.contains_key(#[trigger] s[i])
            && b[s[i]].place@ == self.place@ && b[s[i]].link == (if i + 1 < s.len() {
            Some(s[i + 1])
        } else {
            None
        }) by {
            assert(a.contains_key(s[i]) && a[s[i]].place@ == self.place@);
        }
        assert forall|k: usize| #[trigger]
            b.contains_key(k) && b[k].place@ == self.place@ implies s.contains(k) by {
            assert(a.contains_key(k) && a[k].place@ == self.place@);
        }
    }

    /// The empty chain of a container in which no task is.
    pub fn new(Ghost(place): Ghost<Place>) -> (c: Chain)
        ensures
            c.order().len() == 0,
            c.place() == place,
            forall|tasks: Map<usize, Task>|
                (forall|k: usize| #[trigger] tasks.contains_key(k) ==> tasks[k].place@ != place)
                    ==> #[trigger] c.wf(tasks),
    {
        Chain { head: None, tail: None, order: Ghost(Seq::empty()), place: Ghost(place) }
    }

    /// Whether no task is on the chain.
    pub fn is_empty(&self, Ghost(tasks): Ghost<Map<usize, Task>>) -> (yes: bool)
        requires
            self.wf(tasks),
        ensures
            yes == (self.order().len() == 0),
    {
        self.head.is_none()
    }

    /// The first task on the chain.
    pub fn first(&self, Ghost(tasks): Ghost<Map<usize, Task>>) -> (id: Option<usize>)
        requires
            self.wf(tasks),
        ensures
            id == (if self.order().len() == 0 {
                None
            } else {
                Some(self.order()[0])
            }),
    {
        self.head
    }

    /// The tasks on the chain, first in first.
    pub fn ids(&self, tasks: &Table<usize, Task>) -> (list: Vec<usize>)
        requires
            self.wf(tasks@),
        ensures
            list@ == self.order(),
    {
        let ghost s = self.order@;
        let mut list: Vec<usize> = Vec::new();
        let mut cur: Option<usize> = self.head;
        assert(s.take(0) =~= Seq::<usize>::empty());
        while cur.is_some()
            invariant
                self.wf(tasks@),
                s == self.order@,
                list@.len() <= s.len(),
                list@ == s.take(list@.len() as int),
                cur == (if list@.len() < s.len() {
                    Some(s[list@.len() as int])
                } else {
                    None
                }),
            decreases s.len() - list@.len(),
        {
            let node: usize = cur.unwrap();
            let ghost n = list@.len() as int;
            assert(node == s[n]);
            list.push(node);
            assert(s.take(n + 1) =~= s.take(n).push(s[n]));
            let mut next: Option<usize> = None;
            match tasks.get(node) {
                Some(t) => {
                    next = t.link;
                },
                None => {},
            }
            cur = next;
        }
        assert(s.take(s.len() as int) =~= s);
        list
    }

    /// Puts a task in flight at the end of the chain.
    pub fn push_back(&mut self, tasks: &mut Table<usize, Task>, id: usize)
        requires
            old(self).wf(old(tasks)@),
            old(tasks)@.contains_key(id),
            old(tasks)@[id].place@ == Place::Flight,
            old(self).place() != Place::Flight,
        ensures
            final(self).wf(final(tasks)@),
            final(self).place() == old(self).place(),
            final(self).order() == old(self).order().push(id),
            same_bodies(old(tasks)@, final(tasks)@),
            final(tasks)@[id].place@ == old(self).place(),
            forall|k: usize|
                k != id && #[trigger] old(tasks)@.contains_key(k) ==> final(tasks)@[k].place@
                    == old(tasks)@[k].place@,
            forall|k: usize|
                k != id && #[trigger] old(tasks)@.contains_key(k) && old(tasks)@[k].place@ != old(
                    self,
                ).place() ==> final(tasks)@[k] == old(tasks)@[k],
    {
        let ghost before = tasks@;
        let ghost s = self.order@;
        proof {
            assert(!s.contains(id)) by {
                if s.contains(id) {
                    let i = choose|i: int| 0 <= i < s.len() && s[i] == id;
                    assert(before[s[i]].place@ == self.place@);
                }
            }
        }
        match tasks.get_mut(id) {
            Some(t) => {
                t.link = None;
                t.place = Ghost(self.place@);
            },
            None => {},
        }
        match self.tail {
            None => {
                self.head = Some(id);
            },
            Some(last) => {
                assert(s[s.len() - 1] == last);
                match tasks.get_mut(last) {
                    Some(t) => {
                        t.link = Some(id);
                    },
                    None => {},
                }
            },
        }
        self.tail = Some(id);
        self.order = Ghost(s.push(id));
        proof {
            assert(tasks@.dom() =~= before.dom());
            let n = s.push(id);
            assert forall|i: int| 0 <= i < n.len() implies tasks@.contains_key(#[trigger] n[i])
                && tasks@[n[i]].place@ == self.place@ && tasks@[n[i]].link == (if i + 1 < n.len() {
                Some(n[i + 1])
            } else {
                None
            }) by {
                if i < s.len() {
                    assert(n[i] == s[i]);
                    if i + 1 == s.len() {
                        assert(self.tail == Some(id));
                    } else {
                        assert(s[i] != s[s.len() - 1]);
                    }
                }
            }
            assert forall|k: usize| #[trigger]
                tasks@.contains_key(k) && tasks@[k].place@ == self.place@ implies n.contains(k) by {
                if k == id {
                    assert(n[s.len() as int] == id);
                } else {
                    assert(before.contains_key(k) && before[k].place@ == self.place@);
                    let i = choose|i: int| 0 <= i < s.len() && s[i] == k;
                    assert(n[i] == k);
                }
            }
        }
    }

    /// Takes the first task off the chain; it is in flight then.
    pub fn pop_front(&mut self, tasks: &mut Table<usize, Task>) -> (id: Option<usize>)
        requires
            old(self).wf(old(tasks)@),
            old(self).place() != Place::Flight,
        ensures
            final(self).wf(final(tasks)@),
            pops(*old(self), id, *final(self)),
            id is None ==> final(tasks)@ == old(tasks)@,
            id matches Some(id) ==> {
                &&& same_bodies(old(tasks)@, final(tasks)@)
                &&& old(tasks)@.contains_key(id)
                &&& old(tasks)@[id].place@ == old(self).place()
                &&& final(tasks)@[id].place@ == Place::Flight
                &&& final(tasks)@[id].link is None
                &&& forall|k: usize|
                    k != id && #[trigger] old(tasks)@.contains_key(k) ==> final(tasks)@[k] == old(
                        tasks,
                    )@[k]
            },
    {
        let ghost before = tasks@;
        let ghost s = self.order@;
        match self.head {
            None => None,
            Some(first) => {
                assert(s[0] == first);
                let mut next: Option<usize> = None;
                match tasks.get_mut(first) {
                    Some(t) => {
                        next = t.link;
                        t.link = None;
                        t.place = Ghost(Place::Flight);
                    },
                    None => {},
                }
                self.head = next;
                if self.head.is_none() {
                    self.tail = None;
                }
                self.order = Ghost(s.drop_first());
                proof {
                    assert(tasks@.dom() =~= before.dom());
                    let n = s.drop_first();
                    assert forall|i: int| 0 <= i < n.len() implies tasks@.contains_key(
                        #[trigger] n[i],
                    ) && tasks@[n[i]].place@ == self.place@ && tasks@[n[i]].link == (if i + 1
                        < n.len() {
                        Some(n[i + 1])
                    } else {
                        None
                    }) by {
                        assert(n[i] == s[i + 1]);
                        assert(s[i + 1] != s[0]);
                    }
                    assert forall|k: usize| #[trigger]
                        tasks@.contains_key(k) && tasks@[k].place@ == self.place@ implies n.contains(
                        k,
                    ) by {
                        assert(before.contains_key(k) && before[k].place@ == self.place@);
                        let i = choose|i: int| 0 <= i < s.len() && s[i] == k;
                        assert(n[i - 1] == k);
                    }
                }
                Some(first)
            },
        }
    }

    /// Takes the task at position `at` off the chain, `prev` being the one before it.
    fn unlink(
        &mut self,
        tasks: &mut Table<usize, Task>,
        prev: Option<usize>,
        node: usize,
        Ghost(at): Ghost<int>,
    )
        requires
            old(self).wf(old(tasks)@),
            old(self).place() != Place::Flight,
            0 <= at < old(self).order().len(),
            node == old(self).order()[at],
            prev == (if at == 0 {
                None
            } else {
                Some(old(self).order()[at - 1])
            }),
        ensures
            final(self).wf(final(tasks)@),
            final(self).place() == old(self).place(),
            final(self).order() == without(old(self).order(), node),
            same_bodies(old(tasks)@, final(tasks)@),
            old(tasks)@.contains_key(node),
            old(tasks)@[node].place@ == old(self).place(),
            final(tasks)@[node].place@ == Place::Flight,
            final(tasks)@[node].link is None,
            forall|k: usize|
                k != node && #[trigger] old(tasks)@.contains_key(k) ==> final(tasks)@[k].place@
                    == old(tasks)@[k].place@,
            forall|k: usize|
                k != node && #[trigger] old(tasks)@.contains_key(k) && old(tasks)@[k].place@
                    != old(self).place() ==> final(tasks)@[k] == old(tasks)@[k],
    {
        let ghost before = tasks@;
        let ghost s = self.order@;
        let mut next: Option<usize> = None;
        match tasks.get_mut(node) {
            Some(t) => {
                next = t.link;
                t.link = None;
                t.place = Ghost(Place::Flight);
            },
            None => {},
        }
        match prev {
            Some(p) => {
                assert(s[at - 1] == p);
                match tasks.get_mut(p) {
                    Some(t) => {
                        t.link = next;
                    },
                    None => {},
                }
            },
            None => {
                self.head = next;
            },
        }
        if next.is_none() {
            self.tail = prev;
        }
        self.order = Ghost(s.remove(at));
        proof {
            lemma_without(s, node, at);
            assert(tasks@.dom() =~= before.dom());
            assert(cut(s, at, self.place@, before, tasks@));
            lemma_unlinked(s, at, self.place@, before, tasks@);
        }
    }

    /// Takes `id` off the chain, wherever on it it stands; it is in flight then.
    /// `false` where it is not on the chain.
    ///
    /// Where the last task leaves, the one before it becomes the last.
    pub fn remove(&mut self, tasks: &mut Table<usize, Task>, id: usize) -> (found: bool)
        requires
            old(self).wf(old(tasks)@),
            old(self).place() != Place::Flight,
        ensures
            final(self).wf(final(tasks)@),
            final(self).place() == old(self).place(),
            found == old(self).order().contains(id),
            !found ==> final(tasks)@ == old(tasks)@ && final(self).order() == old(self).order(),
            found ==> {
                &&& final(self).order() == without(old(self).order(), id)
                &&& same_bodies(old(tasks)@, final(tasks)@)
                &&& old(tasks)@.contains_key(id)
                &&& old(tasks)@[id].place@ == old(self).place()
                &&& final(tasks)@[id].place@ == Place::Flight
                &&& final(tasks)@[id].link is None
                &&& forall|k: usize|
                    k != id && #[trigger] old(tasks)@.contains_key(k) ==> final(tasks)@[k].place@
                        == old(tasks)@[k].place@
                &&& forall|k: usize|
                    k != id && #[trigger] old(tasks)@.contains_key(k) && old(tasks)@[k].place@
                        != old(self).place() ==> final(tasks)@[k] == old(tasks)@[k]
            },
    {
        let ghost before = tasks@;
        let ghost s = self.order@;
        let mut prev: Option<usize> = None;
        let mut cur: Option<usize> = self.head;
        let ghost mut at: int = 0;
        while cur.is_some()
            invariant
                self.wf(tasks@),
                *self == *old(self),
                self.place@ != Place::Flight,
                tasks@ == before,
                before == old(tasks)@,
                s == self.order@,
                0 <= at <= s.len(),
                cur == (if at < s.len() {
                    Some(s[at])
                } else {
                    None
                }),
                prev == (if at == 0 {
                    None
                } else {
                    Some(s[at - 1])
                }),
                forall|j: int| 0 <= j < at ==> s[j] != id,
            decreases s.len() - at,
        {
            let node: usize = cur.unwrap();
            assert(node == s[at]);
            if node == id {
                self.unlink(tasks, prev, node, Ghost(at));
                return true;
            }
            prev = Some(node);
            let mut next: Option<usize> = None;
            match tasks.get(node) {
                Some(t) => {
                    next = t.link;
                },
                None => {},
            }
            cur = next;
            proof {
                at = at + 1;
            }
        }
        proof {
            assert(!s.contains(id));
        }
        false
    }
}

/// Whether the links of `tasks` string the tasks in `place` together in the order `s`.
pub open spec fn strung(s: Seq<usize>, tasks: Map<usize, Task>, place: Place) -> bool {
    &&& s.no_duplicates()
    &&& forall|i: int|
        0 <= i < s.len() ==> tasks.contains_key(#[trigger] s[i]) && tasks[s[i]].place@ == place
    &&& forall|i: int|
        0 <= i < s.len() ==> #[trigger] tasks[s[i]].link == (if i + 1 < s.len() {
            Some(s[i + 1])
        } else {
            None
        })
    &&& forall|k: usize| #[trigger]
        tasks.contains_key(k) && tasks[k].place@ == place ==> s.contains(k)
}

/// Whether `after` is `before` with the task at `at` unlinked from `s`.
spec fn cut(
    s: Seq<usize>,
    at: int,
    place: Place,
    before: Map<usize, Task>,
    after: Map<usize, Task>,
) -> bool {
    &&& 0 <= at < s.len()
    &&& place != Place::Flight
    &&& after.dom() == before.dom()
    &&& after[s[at]].place@ == Place::Flight
    &&& at > 0 ==> after[s[at - 1]].place@ == place && after[s[at - 1]].link == before[s[at]].link
    &&& forall|k: usize| #[trigger]
        before.contains_key(k) && k != s[at] && !(at > 0 && k == s[at - 1]) ==> after[k]
            == before[k]
}

/// Unlinking the task at `at` keeps the rest strung together.
proof fn lemma_unlinked(
    s: Seq<usize>,
    at: int,
    place: Place,
    before: Map<usize, Task>,
    after: Map<usize, Task>,
)
    requires
        strung(s, before, place),
        cut(s, at, place, before, after),
    ensures
        strung(s.remove(at), after, place),
{
    let n = s.remove(at);
    assert forall|i: int| 0 <= i < n.len() implies after.contains_key(#[trigger] n[i])
        && after[n[i]].place@ == place && after[n[i]].link == (if i + 1 < n.len() {
        Some(n[i + 1])
    } else {
        None
    }) by {
        lemma_unlinked_at(s, at, place, before, after, i);
    }
    assert forall|k: usize| #[trigger]
        after.contains_key(k) && after[k].place@ == place implies n.contains(k) by {
        lemma_unlinked_covers(s, at, place, before, after, k);
    }
    lemma_removed_unique(s, at);
}

proof fn lemma_removed_unique(s: Seq<usize>, at: int)
    requires
        s.no_duplicates(),
        0 <= at < s.len(),
    ensures
        s.remove(at).no_duplicates(),
{
    let n = s.remove(at);
    assert forall|i: int, j: int| 0 <= i < n.len() && 0 <= j < n.len() && i != j implies n[i]
        != n[j] by {
        let a = if i < at {
            i
        } else {
            i + 1
        };
        let b = if j < at {
            j
        } else {
            j + 1
        };
        assert(s[a] != s[b]);
    }
}

proof fn lemma_unlinked_covers(
    s: Seq<usize>,
    at: int,
    place: Place,
    before: Map<usize, Task>,
    after: Map<usize, Task>,
    k: usize,
)
    requires
        strung(s, before, place),
        cut(s, at, place, before, after),
        after.contains_key(k),
        after[k].place@ == place,
    ensures
        s.remove(at).contains(k),
{
    let n = s.remove(at);
    assert(before.contains_key(k));
    if at > 0 && k == s[at - 1] {
        assert(n[at - 1] == k);
    } else {
        assert(before[k].place@ == place);
        let i = choose|i: int| 0 <= i < s.len() && s[i] == k;
        if i < at {
            assert(n[i] == k);
        } else {
            assert(n[i - 1] == k);
        }
    }
}

proof fn lemma_unlinked_at(
    s: Seq<usize>,
    at: int,
    place: Place,
    before: Map<usize, Task>,
    after: Map<usize, Task>,
    i: int,
)
    requires
        strung(s, before, place),
        cut(s, at, place, before, after),
        0 <= i < s.len() - 1,
    ensures
        after.contains_key(s.remove(at)[i]),
        after[s.remove(at)[i]].place@ == place,
        after[s.remove(at)[i]].link == (if i + 1 < s.len() - 1 {
            Some(s.remove(at)[i + 1])
        } else {
            None
        }),
{
    let n = s.remove(at);
    let j = if i < at {
        i
    } else {
        i + 1
    };
    assert(n[i] == s[j]);
    assert(s[j] != s[at]);
    assert(before.contains_key(s[j]));
    if j + 1 == at {
        assert(before[s[at]].link == (if at + 1 < s.len() {
            Some(s[at + 1])
        } else {
            None
        }));
    } else if at > 0 {
        assert(s[j] != s[at - 1]);
    }
}

/// `s` without the elements equal to `id`, in the same order.
pub open spec fn without(s: Seq<usize>, id: usize) -> Seq<usize> {
    s.filter(other_than(id))
}

/// The test that every value but `id` passes.
pub open spec fn other_than(id: usize) -> spec_fn(usize) -> bool {
    |x: usize| x != id
}

/// In a sequence without duplicates, leaving `id` out is removing its one position.
pub proof fn lemma_without(s: Seq<usize>, id: usize, at: int)
    requires
        s.no_duplicates(),
        0 <= at < s.len(),
        s[at] == id,
    ensures
        without(s, id) == s.remove(at),
{
    let p = other_than(id);
    let a = s.subrange(0, at);
    let b = s.subrange(at + 1, s.len() as int);
    assert(s == a + seq![id] + b);
    Seq::filter_distributes_over_add(a, seq![id], p);
    Seq::filter_distributes_over_add(a + seq![id], b, p);
    assert(seq![id].filter(p) == Seq::<usize>::empty()) by {
        reveal_with_fuel(Seq::filter, 2);
        assert(seq![id].drop_last() == Seq::<usize>::empty());
    }
    assert(s.remove(at) == a + b);
    assert(!a.contains(id)) by {
        assert(forall|i: int| 0 <= i < a.len() ==> a[i] == s[i]);
    }
    assert(!b.contains(id)) by {
        assert(forall|i: int| 0 <= i < b.len() ==> b[i] == s[i + at + 1]);
    }
    lemma_filter_all(a, id);
    lemma_filter_all(b, id);
    assert(s.filter(p) == a.filter(p) + seq![id].filter(p) + b.filter(p));
    assert(a + Seq::<usize>::empty() + b == a + b);
}

/// Leaving out an element that is not there changes nothing.
pub proof fn lemma_filter_all(s: Seq<usize>, id: usize)
    requires
        !s.contains(id),
    ensures
        without(s, id) == s,
    decreases s.len(),
{
    reveal(Seq::filter);
    if s.len() > 0 {
        assert(s.drop_last().push(s.last()) == s);
        assert(forall|i: int| 0 <= i < s.drop_last().len() ==> s.drop_last()[i] == s[i]);
        assert(!s.drop_last().contains(id));
        lemma_filter_all(s.drop_last(), id);
        assert(s.last() == s[s.len() - 1]);
    }
}

/// What [`Chain::pop_front`] says of a chain before and after, and of the task that it gives.
pub open spec fn pops(a: Chain, id: Option<usize>, b: Chain) -> bool {
    &&& b.place() == a.place()
    &&& id is None <==> a.order().len() == 0
    &&& id is None ==> b.order() == a.order()
    &&& id matches Some(x) ==> x == a.order()[0] && b.order() == a.order().drop_first()
}

/// A chain that is taken from at the front gives all that is on it, in order, and then nothing:
/// `chains` are the chain before the first and after each of the takings that gave `ids`.
pub proof fn law_pops_reach_all(chains: Seq<Chain>, ids: Seq<Option<usize>>, i: int)
    requires
        chains.len() == ids.len() + 1,
        forall|j: int|
            0 <= j < ids.len() ==> #[trigger] pops(chains[j], ids[j], chains[j + 1]),
        0 <= i <= ids.len(),
    ensures
        ({
            let all = chains[0].order();
            &&& chains[i].order() == (if i <= all.len() {
                all.skip(i)
            } else {
                Seq::<usize>::empty()
            })
            &&& i < ids.len() ==> ids[i] == (if i < all.len() {
                Some(all[i])
            } else {
                None
            })
        }),
    decreases i,
{
    let all = chains[0].order();
    if i == 0 {
        assert(all.skip(0) =~= all);
    } else {
        law_pops_reach_all(chains, ids, i - 1);
        assert(pops(chains[i - 1], ids[i - 1], chains[i - 1 + 1]));
        if i <= all.len() {
            assert(all.skip(i - 1).drop_first() =~= all.skip(i));
        } else if i - 1 <= all.len() {
            assert(all.skip(i - 1) =~= Seq::<usize>::empty());
        }
    }
    if i < ids.len() {
        assert(pops(chains[i], ids[i], chains[i + 1]));
    }
}

/// Taking a task out of the middle of a chain, or off its end, breaks nothing: what is left and
/// what is put on afterwards all come off at the front, in order, and then nothing does.
pub proof fn law_removed_then_pushed_all_come(
    a: Chain,
    tasks: Map<usize, Task>,
    gone: usize,
    b: Chain,
    new: usize,
    chains: Seq<Chain>,
    ids: Seq<Option<usize>>,
    at: int,
    i: int,
)
    requires
        a.wf(tasks),
        0 <= at < a.order().len(),
        a.order()[at] == gone,
        b.order() == without(a.order(), gone),
        chains.len() == ids.len() + 1,
        chains[0].order() == b.order().push(new),
        forall|j: int|
            0 <= j < ids.len() ==> #[trigger] pops(chains[j], ids[j], chains[j + 1]),
        0 <= i < ids.len(),
    ensures
        b.order() == a.order().remove(at),
        i < a.order().len() - 1 ==> ids[i] == Some(a.order().remove(at)[i]),
        i == a.order().len() - 1 ==> ids[i] == Some(new),
        i >= a.order().len() ==> ids[i] is None,
{
    a.lemma_members(tasks);
    lemma_without(a.order(), gone, at);
    law_pops_reach_all(chains, ids, i);
}

} // verus!
