//! Sites: the places where tasks wait.
//!
//! A site belongs to one [`WakeKey`]. It holds the line of waiting tasks, the beacon
//! left by a wake that found nobody, and the toles to knock at when it is woken.
use vstd::prelude::*;
use crate::table::{Code, Table};
use crate::unit::chain::Chain;
use crate::unit::task::{Place, Task};

verus! {

/// Which end of a hole a task waits at.
#[derive(Clone, Copy, Debug, PartialEq, Eq, Structural)]
pub enum HoleDir {
    /// For a message to take.
    Pull,
    /// For room to put one.
    Push,
}

impl HoleDir {
    pub open spec fn number(self) -> u64 {
        match self {
            HoleDir::Pull => 0,
            HoleDir::Push => 1,
        }
    }

    fn to_number(self) -> (n: u64)
        ensures
            n == self.number(),
    {
        match self {
            HoleDir::Pull => 0,
            HoleDir::Push => 1,
        }
    }
}

/// What a task waits for.
#[derive(Clone, Copy, Debug, PartialEq, Eq, Structural)]
pub enum WakeKey {
    /// A word of an address space.
    Space { space: usize, slot: usize },
    /// One end of a hole.
    Hole { hole: usize, dir: HoleDir },
    /// The ring of a nole.
    Nole { id: usize },
    /// The end of a task.
    Task { id: usize },
    /// A change of a task's own pies.
    Pies { task: usize },
    /// Any hole that hangs on a tole.
    Tole { id: usize },
    /// The passing of time alone.
    Alarm { task: usize },
}

impl Code for WakeKey {
    open spec fn code(self) -> (u64, u64, u64) {
        match self {
            WakeKey::Space { space, slot } => (1, space as u64, slot as u64),
            WakeKey::Hole { hole, dir } => (2, hole as u64, dir.number()),
            WakeKey::Nole { id } => (3, id as u64, 0),
            WakeKey::Task { id } => (4, id as u64, 0),
            WakeKey::Pies { task } => (5, task as u64, 0),
            WakeKey::Tole { id } => (6, id as u64, 0),
            WakeKey::Alarm { task } => (7, task as u64, 0),
        }
    }

    fn encode(&self) -> (c: (u64, u64, u64)) {
        match *self {
            WakeKey::Space { space, slot } => (1, space as u64, slot as u64),
            WakeKey::Hole { hole, dir } => (2, hole as u64, dir.to_number()),
            WakeKey::Nole { id } => (3, id as u64, 0),
            WakeKey::Task { id } => (4, id as u64, 0),
            WakeKey::Pies { task } => (5, task as u64, 0),
            WakeKey::Tole { id } => (6, id as u64, 0),
            WakeKey::Alarm { task } => (7, task as u64, 0),
        }
    }

    proof fn lemma_code_injective(a: Self, b: Self) {
    }
}

/// The kind of a [`WakeKey`].
#[derive(Clone, Copy, Debug, PartialEq, Eq, Structural)]
pub enum WakeKind {
    Space,
    Hole,
    Nole,
    Task,
    Pies,
    Tole,
    Alarm,
}

impl WakeKind {
    /// The position of the kind in a tally.
    pub open spec fn rank(self) -> int {
        match self {
            WakeKind::Space => 0,
            WakeKind::Hole => 1,
            WakeKind::Nole => 2,
            WakeKind::Task => 3,
            WakeKind::Pies => 4,
            WakeKind::Tole => 5,
            WakeKind::Alarm => 6,
        }
    }

    /// Computes [`WakeKind::rank`].
    pub fn index(self) -> (i: usize)
        ensures
            i == self.rank(),
            i < 7,
    {
        match self {
            WakeKind::Space => 0,
            WakeKind::Hole => 1,
            WakeKind::Nole => 2,
            WakeKind::Task => 3,
            WakeKind::Pies => 4,
            WakeKind::Tole => 5,
            WakeKind::Alarm => 6,
        }
    }

    /// The kinds in the order of a tally.
    pub fn all() -> (kinds: Vec<WakeKind>)
        ensures
            kinds@.len() == 7,
            forall|i: int| 0 <= i < 7 ==> (#[trigger] kinds@[i]).rank() == i,
    {
        vec![
            WakeKind::Space,
            WakeKind::Hole,
            WakeKind::Nole,
            WakeKind::Task,
            WakeKind::Pies,
            WakeKind::Tole,
            WakeKind::Alarm,
        ]
    }
}

impl WakeKey {
    /// The kind of this key.
    pub open spec fn kind_spec(self) -> WakeKind {
        match self {
            WakeKey::Space { .. } => WakeKind::Space,
            WakeKey::Hole { .. } => WakeKind::Hole,
            WakeKey::Nole { .. } => WakeKind::Nole,
            WakeKey::Task { .. } => WakeKind::Task,
            WakeKey::Pies { .. } => WakeKind::Pies,
            WakeKey::Tole { .. } => WakeKind::Tole,
            WakeKey::Alarm { .. } => WakeKind::Alarm,
        }
    }

    /// Computes [`WakeKey::kind_spec`].
    pub fn kind(&self) -> (k: WakeKind)
        ensures
            k == self.kind_spec(),
    {
        match self {
            WakeKey::Space { .. } => WakeKind::Space,
            WakeKey::Hole { .. } => WakeKind::Hole,
            WakeKey::Nole { .. } => WakeKind::Nole,
            WakeKey::Task { .. } => WakeKind::Task,
            WakeKey::Pies { .. } => WakeKind::Pies,
            WakeKey::Tole { .. } => WakeKind::Tole,
            WakeKey::Alarm { .. } => WakeKind::Alarm,
        }
    }
}

/// `a * b` in 64-bit arithmetic that wraps.
pub open spec fn wrapped_product(a: u64, b: u64) -> u64 {
    a.wrapping_mul(b)
}

impl WakeKey {
    /// The key as one word.
    pub open spec fn folded(self) -> u64 {
        match self {
            WakeKey::Space { space, slot } => wrapped_product(space as u64, 0x9E37_79B9_7F4A_7C15)
                ^ slot as u64,
            WakeKey::Hole { hole, dir } => wrapped_product(hole as u64, 0x9E37_79B9_7F4A_7C15)
                ^ dir.number(),
            WakeKey::Nole { id } => wrapped_product(id as u64, 0xBF58_476D_1CE4_E5B9),
            WakeKey::Task { id } => wrapped_product(id as u64, 0xD6E8_FEB8_6659_FD93),
            WakeKey::Alarm { task } => wrapped_product(task as u64, 0xA24B_AED4_963E_E407),
            WakeKey::Pies { task } => wrapped_product(task as u64, 0xC2B2_AE3D_27D4_EB4F),
            WakeKey::Tole { id } => wrapped_product(id as u64, 0x1656_67B1_9E37_79F9),
        }
    }

    /// Computes [`WakeKey::folded`].
    pub fn fold(self) -> (word: u64)
        ensures
            word == self.folded(),
    {
        match self {
            WakeKey::Space { space, slot } => (space as u64).wrapping_mul(0x9E37_79B9_7F4A_7C15)
                ^ slot as u64,
            WakeKey::Hole { hole, dir } => (hole as u64).wrapping_mul(0x9E37_79B9_7F4A_7C15)
                ^ dir.to_number(),
            WakeKey::Nole { id } => (id as u64).wrapping_mul(0xBF58_476D_1CE4_E5B9),
            WakeKey::Task { id } => (id as u64).wrapping_mul(0xD6E8_FEB8_6659_FD93),
            WakeKey::Alarm { task } => (task as u64).wrapping_mul(0xA24B_AED4_963E_E407),
            WakeKey::Pies { task } => (task as u64).wrapping_mul(0xC2B2_AE3D_27D4_EB4F),
            WakeKey::Tole { id } => (id as u64).wrapping_mul(0x1656_67B1_9E37_79F9),
        }
    }
}

/// The most toles that one site knocks at.
pub const FWD_MAX: usize = 8;

/// The toles that a site knocks at, each with the life it depends on.
pub struct Fwd {
    ids: Vec<usize>,
    lives: Vec<usize>,
}

impl Fwd {
    /// The entries in the order in which they were attached.
    pub closed spec fn list(self) -> Seq<(usize, usize)> {
        Seq::new(self.ids@.len(), |i: int| (self.ids@[i], self.lives@[i]))
    }

    #[verifier::type_invariant]
    spec fn type_inv(self) -> bool {
        &&& self.ids@.len() == self.lives@.len()
        &&& self.ids@.len() <= FWD_MAX
        &&& self.ids@.no_duplicates()
    }

    /// No entries.
    pub fn empty() -> (f: Fwd)
        ensures
            f.list() == Seq::<(usize, usize)>::empty(),
    {
        Fwd { ids: Vec::new(), lives: Vec::new() }
    }

    /// Attaches `tole`. A tole that is attached already stays as it is; a full list
    /// refuses.
    pub fn attach(&mut self, tole: usize, life: usize) -> (r: Result<(), ()>)
        ensures
            attached(old(self).list(), tole) ==> r is Ok && final(self).list() == old(
                self,
            ).list(),
            !attached(old(self).list(), tole) && old(self).list().len() == FWD_MAX ==> r is Err
                && final(self).list() == old(self).list(),
            !attached(old(self).list(), tole) && old(self).list().len() < FWD_MAX ==> r is Ok
                && final(self).list() == old(self).list().push((tole, life)),
    {
        proof {
            use_type_invariant(&*self);
        }
        match self.position(tole) {
            Some(_) => Ok(()),
            None => {
                assert(!self.ids@.contains(tole)) by {
                    assert(forall|j: int|
                        0 <= j < self.ids@.len() ==> (#[trigger] self.list()[j]).0
                            == self.ids@[j]);
                    if self.ids@.contains(tole) {
                        let j = choose|j: int| 0 <= j < self.ids@.len() && self.ids@[j] == tole;
                        assert(self.list()[j].0 == tole);
                    }
                }
                if self.ids.len() == FWD_MAX {
                    return Err(());
                }
                let mut whole: Fwd = Fwd::empty();
                std::mem::swap(self, &mut whole);
                let Fwd { mut ids, mut lives } = whole;
                ids.push(tole);
                lives.push(life);
                *self = Fwd { ids, lives };
                assert(self.list() =~= old(self).list().push((tole, life)));
                Ok(())
            },
        }
    }

    /// Where `tole` stands.
    fn position(&self, tole: usize) -> (at: Option<usize>)
        ensures
            at matches Some(i) ==> i < self.list().len() && self.list()[i as int].0 == tole,
            at is None ==> !attached(self.list(), tole),
    {
        proof {
            use_type_invariant(&*self);
        }
        let mut i: usize = 0;
        while i < self.ids.len()
            invariant
                i <= self.ids@.len(),
                forall|j: int| 0 <= j < i ==> self.ids@[j] != tole,
            decreases self.ids@.len() - i,
        {
            if self.ids[i] == tole {
                return Some(i);
            }
            i += 1;
        }
        None
    }

    /// Detaches `tole`; the others keep their order.
    pub fn detach(&mut self, tole: usize)
        ensures
            !attached(old(self).list(), tole) ==> final(self).list() == old(self).list(),
            forall|at: int|
                0 <= at < old(self).list().len() && (#[trigger] old(self).list()[at]).0 == tole
                    ==> final(self).list() == old(self).list().remove(at),
    {
        proof {
            use_type_invariant(&*self);
        }
        match self.position(tole) {
            None => {},
            Some(at) => {
                let mut whole: Fwd = Fwd::empty();
                std::mem::swap(self, &mut whole);
                let Fwd { mut ids, mut lives } = whole;
                ids.remove(at);
                lives.remove(at);
                *self = Fwd { ids, lives };
                proof {
                    assert(self.list() =~= old(self).list().remove(at as int));
                    assert forall|j: int|
                        0 <= j < old(self).list().len() && (#[trigger] old(self).list()[j]).0
                            == tole implies self.list() == old(self).list().remove(j) by {
                        assert(old(self).ids@[j] == old(self).ids@[at as int]);
                    }
                }
            },
        }
    }

    /// Whether nothing is attached.
    pub fn is_empty(&self) -> (yes: bool)
        ensures
            yes == (self.list().len() == 0),
    {
        self.ids.len() == 0
    }

    /// A copy of the entries.
    pub fn entries(&self) -> (list: Vec<(usize, usize)>)
        ensures
            list@ == self.list(),
    {
        proof {
            use_type_invariant(&*self);
        }
        let mut list: Vec<(usize, usize)> = Vec::new();
        let mut i: usize = 0;
        while i < self.ids.len()
            invariant
                i <= self.ids@.len(),
                self.ids@.len() == self.lives@.len(),
                list@ == self.list().take(i as int),
            decreases self.ids@.len() - i,
        {
            list.push((self.ids[i], self.lives[i]));
            i += 1;
            assert(self.list().take(i as int) =~= self.list().take(i - 1).push(
                self.list()[i - 1],
            ));
        }
        assert(self.list().take(i as int) =~= self.list());
        list
    }

    /// At most [`FWD_MAX`] toles are attached, each once.
    pub fn bound(&self)
        ensures
            self.list().len() <= FWD_MAX,
            forall|i: int, j: int|
                0 <= i < j < self.list().len() ==> (#[trigger] self.list()[i]).0 != (
                #[trigger] self.list()[j]).0,
    {
        proof {
            use_type_invariant(&*self);
        }
    }
}

/// Whether `tole` is among the entries.
pub open spec fn attached(list: Seq<(usize, usize)>, tole: usize) -> bool {
    exists|i: int| 0 <= i < list.len() && (#[trigger] list[i]).0 == tole
}

/// A site.
pub struct Site {
    /// The beacon: a wake came when nobody waited.
    pub pend: bool,
    /// The line of waiting tasks.
    pub chain: Chain,
    /// The life that the key depends on.
    pub life: usize,
    /// The toles to knock at.
    pub fwd: Fwd,
}

/// What a site holds.
#[verifier::ext_equal]
pub struct SiteView {
    pub pend: bool,
    pub line: Seq<usize>,
    pub life: usize,
    pub fwd: Seq<(usize, usize)>,
}

impl Site {
    /// What the site holds.
    pub open spec fn held(self) -> SiteView {
        SiteView {
            pend: self.pend,
            line: self.chain.order(),
            life: self.life,
            fwd: self.fwd.list(),
        }
    }

    /// Whether the site's line is strung through `tasks`, and all on it wait for `key`.
    pub open spec fn wf(self, key: WakeKey, tasks: Map<usize, Task>) -> bool {
        &&& self.chain.place() == Place::Site(key)
        &&& self.chain.wf(tasks)
        &&& forall|i: int|
            0 <= i < self.chain.order().len() ==> waits_at(
                tasks[#[trigger] self.chain.order()[i]],
                key,
            )
    }

    /// A site at which nobody waits.
    pub fn new(Ghost(key): Ghost<WakeKey>, life: usize) -> (s: Site)
        ensures
            s.held() == fresh_site(life),
            s.chain.place() == Place::Site(key),
            forall|tasks: Map<usize, Task>|
                (forall|k: usize| #[trigger]
                    tasks.contains_key(k) ==> tasks[k].place@ != Place::Site(key))
                    ==> #[trigger] s.chain.wf(tasks),
    {
        let s: Site = Site {
            pend: false,
            chain: Chain::new(Ghost(Place::Site(key))),
            life,
            fwd: Fwd::empty(),
        };
        assert(s.held() =~= fresh_site(life));
        s
    }
}

/// A site at which nobody waits and nothing was left.
pub open spec fn fresh_site(life: usize) -> SiteView {
    SiteView {
        pend: false,
        line: Seq::<usize>::empty(),
        life,
        fwd: Seq::<(usize, usize)>::empty(),
    }
}

/// Whether `task` waits for `key`.
pub open spec fn waits_at(task: Task, key: WakeKey) -> bool {
    task.state is Blocked && task.state->key == key
}

/// The number of tables over which the sites are spread.
pub const SITE_SHARDS: usize = 16;

/// The table in which the site of `key` stands.
#[verifier::opaque]
pub open spec fn shard_of(key: WakeKey) -> int {
    let h = wrapped_product(key.folded(), 0x9E37_79B9_7F4A_7C15);
    (((h >> 32) ^ h) & 15) as int
}

/// Computes [`shard_of`].
pub fn site_shard(key: WakeKey) -> (shard: usize)
    ensures
        shard == shard_of(key),
        shard < SITE_SHARDS,
{
    reveal(shard_of);
    let h: u64 = key.fold().wrapping_mul(0x9E37_79B9_7F4A_7C15);
    let low: u64 = ((h >> 32) ^ h) & 15;
    assert(low <= 15) by (bit_vector)
        requires
            low == ((h >> 32) ^ h) & 15,
    ;
    low as usize
}

/// The sites, spread over [`SITE_SHARDS`] tables. `sites@` is the map of them all.
pub struct Sites {
    shards: Vec<Table<WakeKey, Site>>,
}

impl View for Sites {
    type V = Map<WakeKey, Site>;

    closed spec fn view(&self) -> Map<WakeKey, Site> {
        Map::new(
            |k: WakeKey| self.shards@[shard_of(k)]@.contains_key(k),
            |k: WakeKey| self.shards@[shard_of(k)]@[k],
        )
    }
}

impl Sites {
    /// Whether every site stands in the table that its key belongs to.
    pub closed spec fn wf(self) -> bool {
        &&& self.shards@.len() == SITE_SHARDS
        &&& forall|i: int, k: WakeKey|
            0 <= i < SITE_SHARDS && #[trigger] self.shards@[i]@.contains_key(k) ==> shard_of(k)
                == i
    }

    /// No sites.
    pub fn new() -> (s: Sites)
        ensures
            s.wf(),
            s@ == Map::<WakeKey, Site>::empty(),
    {
        let mut shards: Vec<Table<WakeKey, Site>> = Vec::new();
        while shards.len() < SITE_SHARDS
            invariant
                shards@.len() <= SITE_SHARDS,
                forall|i: int|
                    0 <= i < shards@.len() ==> (#[trigger] shards@[i])@ == Map::<
                        WakeKey,
                        Site,
                    >::empty(),
            decreases SITE_SHARDS - shards@.len(),
        {
            shards.push(Table::new());
        }
        let s: Sites = Sites { shards };
        proof {
            lemma_shards();
            assert(s@ =~= Map::<WakeKey, Site>::empty());
        }
        s
    }

    /// Whether `key` has a site.
    pub fn contains(&self, key: WakeKey) -> (yes: bool)
        requires
            self.wf(),
        ensures
            yes == self@.contains_key(key),
    {
        self.shards[site_shard(key)].contains(key)
    }

    /// The site of `key`.
    pub fn get(&self, key: WakeKey) -> (s: Option<&Site>)
        requires
            self.wf(),
        ensures
            s == (if self@.contains_key(key) {
                Some(&self@[key])
            } else {
                None
            }),
    {
        self.shards[site_shard(key)].get(key)
    }

    /// The site of `key`, to change in place.
    pub fn get_mut(&mut self, key: WakeKey) -> (s: Option<&mut Site>)
        requires
            old(self).wf(),
        ensures
            final(self).wf(),
            old(self)@.contains_key(key) ==> {
                &&& s is Some
                &&& *s->0 == old(self)@[key]
                &&& final(self)@ =~= old(self)@.insert(key, *final(s->0))
            },
            !old(self)@.contains_key(key) ==> s is None && final(self)@ == old(self)@,
    {
        proof {
            lemma_shards();
        }
        let shard: usize = site_shard(key);
        self.shards[shard].get_mut(key)
    }

    /// Makes room for the site of `key`; `false` where the allocator has none.
    pub fn try_reserve(&mut self, key: WakeKey) -> (ok: bool)
        requires
            old(self).wf(),
        ensures
            final(self).wf(),
            final(self)@ =~= old(self)@,
    {
        proof {
            lemma_shards();
        }
        let shard: usize = site_shard(key);
        self.shards[shard].try_reserve()
    }

    /// Puts `site` at `key`.
    pub fn insert(&mut self, key: WakeKey, site: Site)
        requires
            old(self).wf(),
        ensures
            final(self).wf(),
            final(self)@ =~= old(self)@.insert(key, site),
    {
        proof {
            lemma_shards();
        }
        let shard: usize = site_shard(key);
        self.shards[shard].insert(key, site);
    }

    /// Takes the site of `key` away.
    pub fn remove(&mut self, key: WakeKey) -> (gone: Option<Site>)
        requires
            old(self).wf(),
        ensures
            final(self).wf(),
            final(self)@ =~= old(self)@.remove(key),
            gone == (if old(self)@.contains_key(key) {
                Some(old(self)@[key])
            } else {
                None
            }),
    {
        proof {
            lemma_shards();
        }
        let shard: usize = site_shard(key);
        self.shards[shard].remove(key)
    }

    /// The keys of one table.
    pub fn keys_of(&self, shard: usize) -> (keys: Vec<WakeKey>)
        requires
            self.wf(),
            shard < SITE_SHARDS,
        ensures
            keys@.no_duplicates(),
            forall|k: WakeKey| #[trigger]
                keys@.contains(k) <==> self@.contains_key(k) && shard_of(k) == shard,
    {
        let mut keys: Vec<WakeKey> = Vec::new();
        let table: &Table<WakeKey, Site> = &self.shards[shard];
        let n: usize = table.len();
        let ghost order = table.order();
        while keys.len() < n
            invariant
                n == order.len(),
                order == table.order(),
                keys@ == order.take(keys@.len() as int),
                keys@.len() <= n,
            decreases n - keys@.len(),
        {
            keys.push(table.key_at(keys.len()));
            assert(keys@ =~= order.take(keys@.len() as int));
        }
        proof {
            assert(keys@ =~= order);
            assert(*table == self.shards@[shard as int]);
            assert forall|k: WakeKey| #[trigger]
                keys@.contains(k) <==> self@.contains_key(k) && shard_of(k) == shard by {
                assert(order.contains(k) <==> table@.contains_key(k));
            }
        }
        keys
    }
}

/// Every key belongs to one of the tables.
pub proof fn lemma_shards()
    ensures
        forall|key: WakeKey| 0 <= #[trigger] shard_of(key) < SITE_SHARDS,
{
    assert forall|key: WakeKey| 0 <= #[trigger] shard_of(key) < SITE_SHARDS by {
        reveal(shard_of);
        let h = wrapped_product(key.folded(), 0x9E37_79B9_7F4A_7C15);
        assert(((h >> 32) ^ h) & 15 <= 15) by (bit_vector);
    }
}

} // verus!
