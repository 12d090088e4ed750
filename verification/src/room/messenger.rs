//! The messenger: tasks that are not running.
//!
//! It keeps those that wait, those that are to be stopped, and those that have ended.
pub mod doom;
pub mod handoff;
pub mod reap;
pub mod wait;

use vstd::prelude::*;
use crate::bits::MAX_HART_SLOTS;
use crate::room::{Room, RoomView};
use crate::room::messenger::wait::holder::lemma_same_floor;
use crate::room::messenger::wait::site;
use crate::room::messenger::wait::site::{SITE_SHARDS, WakeKey, WakeKind};
use crate::room::messenger::wait::site::shard_of;

verus! {

/// The exit reason of a task that faulted.
pub const EXIT_FAULT: usize = 0xFFFF_FFFF;

/// The exit reason of a task that was stopped from outside.
pub const EXIT_DOOM: usize = 0xFFFF_FFFE;

/// The exit reason of a task that went down with its lineage.
pub const EXIT_CASCADE: usize = 0xFFFF_FFFD;

/// The slot in which hart `hart` leaves its exit reason; harts beyond the last slot
/// share it.
pub open spec fn reason_slot(hart: usize) -> int {
    if hart < MAX_HART_SLOTS {
        hart as int
    } else {
        MAX_HART_SLOTS - 1
    }
}

fn slot_of(hart: usize) -> (slot: usize)
    ensures
        slot == reason_slot(hart),
        slot < MAX_HART_SLOTS,
{
    if hart < MAX_HART_SLOTS {
        hart
    } else {
        MAX_HART_SLOTS - 1
    }
}

/// Leaves the reason for which the task on `hart` is about to end.
pub fn set_exit_reason(room: &mut Room, hart: usize, reason: usize)
    requires
        old(room).wf(),
    ensures
        final(room).wf(),
        final(room)@ == (RoomView {
            reasons: old(room)@.reasons.update(reason_slot(hart), reason),
            ..old(room)@
        }),
{
    let slot: usize = slot_of(hart);
    room.reasons[slot] = reason;
    proof {
        lemma_same_floor(*old(room), *room);
        assert(room@ =~= (RoomView {
            reasons: old(room)@.reasons.update(reason_slot(hart), reason),
            ..old(room)@
        }));
    }
}

/// Takes the reason that was left on `hart`; zero where none was.
pub fn take_exit_reason(room: &mut Room, hart: usize) -> (reason: usize)
    requires
        old(room).wf(),
    ensures
        final(room).wf(),
        reason == old(room)@.reasons[reason_slot(hart)],
        final(room)@ == (RoomView {
            reasons: old(room)@.reasons.update(reason_slot(hart), 0),
            ..old(room)@
        }),
{
    let slot: usize = slot_of(hart);
    let reason: usize = room.reasons[slot];
    set_exit_reason(room, hart, 0);
    reason
}

/// The number of tickets that are held, and of husks.
pub fn probe_bookkeeping(room: &Room) -> (c: (usize, usize))
    ensures
        c.0 == room@.holders.dom().len(),
        c.1 == room@.husks.len(),
{
    (room.holders.len(), room.husks.len())
}

/// A tally of the sites. A counter that has reached the highest number stays there.
pub struct SiteStats {
    /// All sites.
    pub sites: usize,
    /// Sites at which somebody waits.
    pub live: usize,
    /// Sites with nobody but a beacon.
    pub tomb: usize,
    /// Sites with neither.
    pub orphan: usize,
    /// Sites whose life has ended.
    pub dead: usize,
    /// Tasks that wait.
    pub waiters: usize,
    /// Sites of each kind of key.
    pub each: Vec<usize>,
}

/// What a [`SiteStats`] counts.
#[verifier::ext_equal]
pub struct Tally {
    pub sites: nat,
    pub live: nat,
    pub tomb: nat,
    pub orphan: nat,
    pub dead: nat,
    pub waiters: nat,
    pub each: Seq<nat>,
}

/// `n`, or the highest number there is where that is less.
pub open spec fn capped(n: nat) -> usize {
    if n <= usize::MAX {
        n as usize
    } else {
        usize::MAX
    }
}

impl SiteStats {
    /// Whether `t` is what is counted.
    pub open spec fn shows(self, t: Tally) -> bool {
        &&& self.sites == capped(t.sites)
        &&& self.live == capped(t.live)
        &&& self.tomb == capped(t.tomb)
        &&& self.orphan == capped(t.orphan)
        &&& self.dead == capped(t.dead)
        &&& self.waiters == capped(t.waiters)
        &&& self.each@.len() == t.each.len()
        &&& forall|i: int|
            0 <= i < self.each@.len() ==> #[trigger] self.each@[i] == capped(t.each[i])
    }

    /// Each kind of key with the number of its sites, in a fixed order.
    pub fn kinds(&self) -> (list: Vec<(WakeKind, usize)>)
        requires
            self.each@.len() == 7,
        ensures
            list@.len() == 7,
            forall|i: int|
                0 <= i < 7 ==> (#[trigger] list@[i]).0.rank() == i && list@[i].1 == self.each@[i],
    {
        let all: Vec<WakeKind> = WakeKind::all();
        let mut list: Vec<(WakeKind, usize)> = Vec::new();
        let mut i: usize = 0;
        while i < 7
            invariant
                i <= 7,
                all@.len() == 7,
                self.each@.len() == 7,
                forall|j: int| 0 <= j < 7 ==> (#[trigger] all@[j]).rank() == j,
                list@.len() == i,
                forall|j: int|
                    0 <= j < i ==> (#[trigger] list@[j]).0.rank() == j && list@[j].1
                        == self.each@[j],
            decreases 7 - i,
        {
            list.push((all[i], self.each[i]));
            i += 1;
        }
        list
    }
}

/// The tally of the sites of `keys`, one after the other.
pub open spec fn tallied(v: RoomView, keys: Seq<WakeKey>) -> Tally
    decreases keys.len(),
{
    if keys.len() == 0 {
        Tally {
            sites: 0,
            live: 0,
            tomb: 0,
            orphan: 0,
            dead: 0,
            waiters: 0,
            each: Seq::new(7, |i: int| 0nat),
        }
    } else {
        let t = tallied(v, keys.drop_last());
        let key = keys.last();
        let s = v.sites[key];
        let r = key.kind_spec().rank();
        Tally {
            sites: t.sites + 1,
            live: if s.line.len() > 0 {
                t.live + 1
            } else {
                t.live
            },
            tomb: if s.line.len() == 0 && s.pend {
                t.tomb + 1
            } else {
                t.tomb
            },
            orphan: if s.line.len() == 0 && !s.pend {
                t.orphan + 1
            } else {
                t.orphan
            },
            dead: if !v.alive(s.life) {
                t.dead + 1
            } else {
                t.dead
            },
            waiters: t.waiters + s.line.len(),
            each: t.each.update(r, t.each[r] + 1),
        }
    }
}

/// Whether `keys` are the keys that have a site, each once.
pub open spec fn all_keys(v: RoomView, keys: Seq<WakeKey>) -> bool {
    &&& keys.no_duplicates()
    &&& forall|k: WakeKey| #[trigger] keys.contains(k) <==> v.sites.contains_key(k)
}

/// Whether a tally of `n` sites adds up: each site is live, a tomb or an orphan, has one kind,
/// and where its life has ended it is a tomb or an orphan.
pub open spec fn adds_up(t: Tally, n: nat) -> bool {
    &&& t.sites == n
    &&& t.sites == t.live + t.tomb + t.orphan
    &&& t.dead <= t.tomb + t.orphan
    &&& t.live <= t.waiters
    &&& t.each.len() == 7
    &&& t.sites == t.each[0] + t.each[1] + t.each[2] + t.each[3] + t.each[4] + t.each[5]
        + t.each[6]
}

/// Nobody waits at a dead key.
pub proof fn law_dead_keys_are_empty(room: Room, key: WakeKey)
    requires
        room.wf(),
        room@.sites.contains_key(key),
        !room@.alive(room@.sites[key].life),
    ensures
        room@.sites[key].line.len() == 0,
{
    assert(room.sites@.contains_key(key));
    assert(room@.sites[key] == room.sites@[key].held());
}

/// The tally of a room adds up, whatever part of its sites is counted.
pub proof fn law_tally_adds_up(room: Room, keys: Seq<WakeKey>)
    requires
        room.wf(),
        forall|i: int| 0 <= i < keys.len() ==> room@.sites.contains_key(#[trigger] keys[i]),
    ensures
        adds_up(tallied(room@, keys), keys.len()),
    decreases keys.len(),
{
    if keys.len() > 0 {
        let rest = keys.drop_last();
        assert forall|i: int| 0 <= i < rest.len() implies room@.sites.contains_key(
            #[trigger] rest[i],
        ) by {
            assert(rest[i] == keys[i]);
        }
        law_tally_adds_up(room, rest);
        let key = keys.last();
        assert(keys[keys.len() - 1] == key);
        if !room@.alive(room@.sites[key].life) {
            law_dead_keys_are_empty(room, key);
        }
    }
}

/// Counts the sites.
pub fn probe(room: &Room) -> (st: SiteStats)
    requires
        room.wf(),
    ensures
        exists|keys: Seq<WakeKey>| #[trigger]
            all_keys(room@, keys) && st.shows(tallied(room@, keys)) && adds_up(
                tallied(room@, keys),
                room@.sites.dom().len(),
            ),
        st.each@.len() == 7,
        st.dead <= st.tomb + st.orphan,
        st.live <= st.waiters,
{
    let mut st: SiteStats = SiteStats {
        sites: 0,
        live: 0,
        tomb: 0,
        orphan: 0,
        dead: 0,
        waiters: 0,
        each: vec![0usize; 7],
    };
    let ghost mut done: Seq<WakeKey> = Seq::empty();
    let ghost v = room@;
    let mut shard: usize = 0;
    proof {
        assert(st.shows(tallied(v, done)));
        site::lemma_shards();
    }
    while shard < SITE_SHARDS
        invariant
            room.wf(),
            v == room@,
            shard <= SITE_SHARDS,
            st.each@.len() == 7,
            done.no_duplicates(),
            forall|k: WakeKey| #[trigger]
                done.contains(k) <==> v.sites.contains_key(k) && shard_of(k) < shard,
            st.shows(tallied(v, done)),
        decreases SITE_SHARDS - shard,
    {
        let keys: Vec<WakeKey> = room.sites.keys_of(shard);
        let ghost before = done;
        let mut i: usize = 0;
        proof {
            assert(keys@.take(0) =~= Seq::<WakeKey>::empty());
            assert(before + keys@.take(0) =~= before);
        }
        while i < keys.len()
            invariant
                room.wf(),
                v == room@,
                i <= keys@.len(),
                shard < SITE_SHARDS,
                st.each@.len() == 7,
                done == before + keys@.take(i as int),
                forall|k: WakeKey| #[trigger]
                    keys@.contains(k) <==> room.sites@.contains_key(k) && shard_of(k) == shard,
                st.shows(tallied(v, done)),
            decreases keys@.len() - i,
        {
            let key: WakeKey = keys[i];
            assert(keys@.contains(key));
            let ghost was = done;
            match room.sites.get(key) {
                Some(site) => {
                    assert(v.sites[key] == site.held());
                    let r: usize = key.kind().index();
                    let line: Vec<usize> = site.chain.ids(&room.tasks);
                    st.sites = st.sites.saturating_add(1);
                    let n: usize = st.each[r].saturating_add(1);
                    st.each.set(r, n);
                    if line.len() > 0 {
                        st.live = st.live.saturating_add(1);
                    } else if site.pend {
                        st.tomb = st.tomb.saturating_add(1);
                    } else {
                        st.orphan = st.orphan.saturating_add(1);
                    }
                    if !room.lives.contains(site.life) {
                        st.dead = st.dead.saturating_add(1);
                    }
                    st.waiters = st.waiters.saturating_add(line.len());
                },
                None => {},
            }
            proof {
                done = was.push(key);
                assert(done.drop_last() =~= was);
                assert(st.shows(tallied(v, done)));
                assert(keys@.take(i + 1) =~= keys@.take(i as int).push(key));
                assert(done =~= before + keys@.take(i + 1));
            }
            i += 1;
        }
        proof {
            assert(keys@.take(i as int) =~= keys@);
            lemma_joined(before, keys@);
            assert forall|a: WakeKey| before.contains(a) && keys@.contains(a) implies false by {
                assert(shard_of(a) < shard);
            }
            assert forall|k: WakeKey| #[trigger] done.contains(k) <==> v.sites.contains_key(k)
                && shard_of(k) < shard + 1 by {
                assert(v.sites.contains_key(k) <==> room.sites@.contains_key(k));
                assert(keys@.contains(k) <==> room.sites@.contains_key(k) && shard_of(k) == shard);
            }
        }
        shard += 1;
    }
    proof {
        site::lemma_shards();
        assert(all_keys(v, done));
        assert(done.to_set() =~= v.sites.dom());
        done.unique_seq_to_set();
        assert forall|i: int| 0 <= i < done.len() implies v.sites.contains_key(
            #[trigger] done[i],
        ) by {
            assert(done.contains(done[i]));
        }
        law_tally_adds_up(*room, done);
    }
    st
}

/// What two sequences hold together.
proof fn lemma_joined(a: Seq<WakeKey>, b: Seq<WakeKey>)
    ensures
        forall|k: WakeKey| #[trigger] (a + b).contains(k) <==> a.contains(k) || b.contains(k),
        a.no_duplicates() && b.no_duplicates() && (forall|k: WakeKey|
            a.contains(k) ==> !b.contains(k)) ==> (a + b).no_duplicates(),
{
    let c = a + b;
    assert forall|k: WakeKey| #[trigger] c.contains(k) <==> a.contains(k) || b.contains(k) by {
        if a.contains(k) {
            let i = choose|i: int| 0 <= i < a.len() && a[i] == k;
            assert(c[i] == k);
        }
        if b.contains(k) {
            let i = choose|i: int| 0 <= i < b.len() && b[i] == k;
            assert(c[a.len() + i] == k);
        }
        if c.contains(k) {
            let i = choose|i: int| 0 <= i < c.len() && c[i] == k;
            if i < a.len() {
                assert(a[i] == k);
            } else {
                assert(b[i - a.len()] == k);
            }
        }
    }
    if a.no_duplicates() && b.no_duplicates() && (forall|k: WakeKey|
        a.contains(k) ==> !b.contains(k)) {
        assert forall|i: int, j: int| 0 <= i < c.len() && 0 <= j < c.len() && i != j implies c[i]
            != c[j] by {
            if i < a.len() && j >= a.len() {
                assert(a.contains(c[i]));
                assert(b.contains(b[j - a.len()]));
            }
            if j < a.len() && i >= a.len() {
                assert(a.contains(c[j]));
                assert(b.contains(b[i - a.len()]));
            }
        }
    }
}

} // verus!
