//! The shutdown beacon: the one line that a machine says which hangs on its way down.
//!
//! It speaks once, and only when the root service has ended, some tasks are cleared away
//! and some are not, and nothing has moved for [`STALL_MS`] milliseconds.
use vstd::prelude::*;
use crate::room::Room;
use crate::room::conductor;
use crate::unit::task::TaskTag;

verus! {

/// How long nothing moves before the beacon speaks, in milliseconds.
pub const STALL_MS: u64 = 2_000;

/// [`STALL_MS`] in ticks, of which a millisecond has `rate`; the highest number there is where
/// they do not fit.
pub fn stall_ticks(rate: u64) -> (limit: u64)
    ensures
        limit == (if STALL_MS * rate <= u64::MAX {
            STALL_MS * rate
        } else {
            u64::MAX as int
        }),
{
    match STALL_MS.checked_mul(rate) {
        Some(limit) => limit,
        None => u64::MAX,
    }
}

/// The beacon's memory.
#[derive(Clone, Copy, Debug, PartialEq, Eq, Structural)]
pub struct Beacon {
    /// The root service; zero where there is none yet.
    pub root: usize,
    /// When the counts last moved; zero where nobody is looking.
    pub progress: u64,
    /// The counts that were seen last, packed into one word.
    pub counts: u64,
    /// Whether it has spoken.
    pub fired: bool,
}

/// What the beacon says.
#[derive(Clone, Copy, Debug, PartialEq, Eq, Structural)]
pub struct Stuck {
    pub hart: usize,
    pub pushed: usize,
    pub reaped: usize,
    pub missing: usize,
    pub holders: usize,
    pub husks: usize,
}

/// Tells the beacon which task is the root service.
pub fn arm(beacon: &mut Beacon, root: usize)
    ensures
        *final(beacon) == (Beacon { root, ..*old(beacon) }),
{
    beacon.root = root;
}

/// Whether the session is over: the root service has been stopped or has ended, is gone,
/// or is no longer listed. Never before there is one.
pub open spec fn session_over(beacon: Beacon, room: Room) -> bool {
    &&& beacon.root != 0
    &&& room@.tasks.contains_key(beacon.root) ==> {
        let t = room@.tasks[beacon.root];
        t.buried || t.state is Reaped || t.state is Doomed
    }
}

/// Computes [`session_over`].
pub fn shutting_down(beacon: &Beacon, room: &Room) -> (yes: bool)
    ensures
        yes == session_over(*beacon, *room),
{
    if beacon.root == 0 {
        return false;
    }
    match room.tasks.get(beacon.root) {
        None => true,
        Some(t) => {
            assert(room@.tasks[beacon.root] == t.body());
            if t.buried {
                true
            } else {
                match t.tag() {
                    TaskTag::Reaped => true,
                    TaskTag::Doomed => true,
                    _ => false,
                }
            }
        },
    }
}

/// Two counts in one word, 32 bits each.
pub open spec fn packed_counts(pushed: usize, reaped: usize) -> u64 {
    ((pushed as u64) << 32u64) | (reaped as u64 & 0xffff_ffff)
}

/// Whether nothing has moved since the last look for at least `limit` ticks. A look that
/// finds the counts moved, or that is the first, starts the time anew.
pub fn stalled(beacon: &mut Beacon, pushed: usize, reaped: usize, now: u64, limit: u64) -> (yes:
    bool)
    ensures
        ({
            let moved = old(beacon).counts != packed_counts(pushed, reaped) || old(
                beacon,
            ).progress == 0;
            &&& yes == (!moved && now.wrapping_sub(old(beacon).progress) >= limit)
            &&& *final(beacon) == (Beacon {
                counts: packed_counts(pushed, reaped),
                progress: if moved {
                    now
                } else {
                    old(beacon).progress
                },
                ..*old(beacon)
            })
        }),
{
    let packed: u64 = ((pushed as u64) << 32u64) | (reaped as u64 & 0xffff_ffff);
    let before: u64 = beacon.counts;
    beacon.counts = packed;
    if before != packed || beacon.progress == 0 {
        beacon.progress = now;
        return false;
    }
    let past: u64 = now.wrapping_sub(beacon.progress);
    past >= limit
}

/// One look of the beacon: whether the session is over, the counts, and when.
pub struct Look {
    pub over: bool,
    pub pushed: usize,
    pub reaped: usize,
    pub now: u64,
}

impl Look {
    /// The counts in one word.
    pub open spec fn counts(self) -> u64 {
        packed_counts(self.pushed, self.reaped)
    }

    /// Whether the machine is on its way down: some tasks are cleared away and some are not.
    pub open spec fn ending(self) -> bool {
        self.over && 0 < self.reaped < self.pushed
    }
}

/// What the beacon sees in `room` at `now`.
pub open spec fn look_at(beacon: Beacon, room: Room, now: u64) -> Look {
    Look {
        over: session_over(beacon, room),
        pushed: room@.score.pushed,
        reaped: room@.score.reaped,
        now,
    }
}

/// Whether the counts have moved since the last look, or this is the first.
pub open spec fn has_moved(b: Beacon, l: Look) -> bool {
    b.counts != l.counts() || b.progress == 0
}

/// Whether the beacon speaks at the look `l`.
pub open spec fn speaks(b: Beacon, l: Look, limit: u64) -> bool {
    !b.fired && l.ending() && !has_moved(b, l) && l.now.wrapping_sub(b.progress) >= limit
}

/// The beacon after the look `l`.
pub open spec fn looked(b: Beacon, l: Look, limit: u64) -> Beacon {
    if b.fired || !l.over {
        b
    } else if !l.ending() {
        Beacon { progress: 0, ..b }
    } else if has_moved(b, l) {
        Beacon { counts: l.counts(), progress: l.now, ..b }
    } else {
        Beacon { fired: speaks(b, l, limit), ..b }
    }
}

/// A hart is about to sleep: says who is missing if the machine hangs. Outside the time
/// between the first task cleared away and the last one, the beacon forgets when the
/// counts last moved.
pub fn idle(beacon: &mut Beacon, room: &Room, hart: usize, now: u64, limit: u64) -> (word: Option<
    Stuck,
>)
    ensures
        *final(beacon) == looked(*old(beacon), look_at(*old(beacon), *room, now), limit),
        word is Some <==> speaks(*old(beacon), look_at(*old(beacon), *room, now), limit),
        word matches Some(w) ==> w == (Stuck {
            hart,
            pushed: room@.score.pushed,
            reaped: room@.score.reaped,
            missing: (room@.score.pushed - room@.score.reaped) as usize,
            holders: room@.holders.dom().len() as usize,
            husks: room@.husks.len() as usize,
        }),
{
    if beacon.fired {
        return None;
    }
    let (pushed, reaped) = conductor::counts(&room.score);
    if !shutting_down(beacon, room) {
        return None;
    }
    if reaped == 0 || reaped >= pushed {
        beacon.progress = 0;
        return None;
    }
    if !stalled(beacon, pushed, reaped, now, limit) {
        return None;
    }
    beacon.fired = true;
    let (holders, husks) = crate::room::messenger::probe_bookkeeping(room);
    Some(
        Stuck {
            hart,
            pushed,
            reaped,
            missing: pushed.saturating_sub(reaped),
            holders,
            husks,
        },
    )
}

/// The beacon after all of `looks`, one after the other.
pub open spec fn looked_all(b: Beacon, looks: Seq<Look>, limit: u64) -> Beacon
    decreases looks.len(),
{
    if looks.len() == 0 {
        b
    } else {
        looked(looked_all(b, looks.drop_last(), limit), looks.last(), limit)
    }
}

/// Whether the beacon speaks at the look with the number `i`.
pub open spec fn speaks_at(b: Beacon, looks: Seq<Look>, i: int, limit: u64) -> bool {
    speaks(looked_all(b, looks.take(i), limit), looks[i], limit)
}

/// Whether every look from `k` on that saw the machine go down saw the same counts as `k` did,
/// some cleared away and some not.
pub open spec fn same_since(looks: Seq<Look>, k: int, n: int) -> bool {
    forall|j: int|
        k <= j < n && (#[trigger] looks[j]).over ==> looks[j].ending() && looks[j].counts()
            == looks[k].counts()
}

proof fn lemma_fired_stays(b: Beacon, looks: Seq<Look>, i: int, j: int, limit: u64)
    requires
        0 <= i <= j <= looks.len(),
        looked_all(b, looks.take(i), limit).fired,
    ensures
        looked_all(b, looks.take(j), limit).fired,
    decreases j,
{
    if i < j {
        lemma_fired_stays(b, looks, i, j - 1, limit);
        assert(looks.take(j).drop_last() =~= looks.take(j - 1));
    }
}

/// The beacon speaks once: who has heard it hears it no more.
pub proof fn law_speaks_once(b: Beacon, looks: Seq<Look>, i: int, j: int, limit: u64)
    requires
        0 <= i < j < looks.len(),
        speaks_at(b, looks, i, limit),
    ensures
        !speaks_at(b, looks, j, limit),
{
    assert(looks.take(i + 1).drop_last() =~= looks.take(i));
    assert(looks.take(i + 1).last() == looks[i]);
    lemma_fired_stays(b, looks, i + 1, j, limit);
}

/// What the beacon remembers: the look at which the counts last moved.
proof fn lemma_remembers(b: Beacon, looks: Seq<Look>, n: int, limit: u64) -> (k: int)
    requires
        b.progress == 0,
        0 <= n <= looks.len(),
    ensures
        ({
            let s = looked_all(b, looks.take(n), limit);
            s.progress != 0 && !s.fired ==> {
                &&& 0 <= k < n
                &&& looks[k].over
                &&& looks[k].now == s.progress
                &&& looks[k].counts() == s.counts
                &&& same_since(looks, k, n)
            }
        }),
    decreases n,
{
    if n == 0 {
        0
    } else {
        let before = lemma_remembers(b, looks, n - 1, limit);
        let s = looked_all(b, looks.take(n - 1), limit);
        let l = looks[n - 1];
        assert(looks.take(n).drop_last() =~= looks.take(n - 1));
        assert(looks.take(n).last() == l);
        if !s.fired && l.ending() && has_moved(s, l) {
            n - 1
        } else {
            before
        }
    }
}

/// Whether nothing has moved for `limit` ticks at the look with the number `i`: the look with
/// the number `k`, so long before, and every look since saw the same counts.
pub open spec fn stuck_since(looks: Seq<Look>, k: int, i: int, limit: u64) -> bool {
    &&& 0 <= k < i
    &&& looks[k].over
    &&& looks[i].now - looks[k].now >= limit
    &&& same_since(looks, k, i + 1)
}

/// The beacon speaks only where the machine hangs on its way down: the root service has ended,
/// some tasks are cleared away and some are not, and nothing has moved for `limit` ticks. Time
/// does not run backwards.
pub proof fn law_speaks_only_when_stuck(b: Beacon, looks: Seq<Look>, i: int, limit: u64)
    requires
        b.progress == 0,
        0 <= i < looks.len(),
        forall|x: int, y: int|
            0 <= x <= y < looks.len() ==> (#[trigger] looks[x]).now <= (#[trigger] looks[y]).now,
        speaks_at(b, looks, i, limit),
    ensures
        looks[i].over,
        0 < looks[i].reaped < looks[i].pushed,
        exists|k: int| #[trigger] stuck_since(looks, k, i, limit),
{
    let k = lemma_remembers(b, looks, i, limit);
    assert(looks[k].now <= looks[i].now);
    assert(stuck_since(looks, k, i, limit));
}

/// One word tells two pairs of counts apart that each fit into 32 bits.
pub proof fn law_packed_counts_differ(p: usize, r: usize, q: usize, s: usize)
    requires
        p <= 0xffff_ffff && r <= 0xffff_ffff && q <= 0xffff_ffff && s <= 0xffff_ffff,
        packed_counts(p, r) == packed_counts(q, s),
    ensures
        p == q,
        r == s,
{
    let (a, b, c, d) = (p as u64, r as u64, q as u64, s as u64);
    assert(a == c && b == d) by (bit_vector)
        requires
            a <= 0xffff_ffff && b <= 0xffff_ffff && c <= 0xffff_ffff && d <= 0xffff_ffff,
            (a << 32u64) | (b & 0xffff_ffff) == (c << 32u64) | (d & 0xffff_ffff),
    ;
}

/// A session that ends and does not move is told of: if two looks find it ending with the same
/// counts and the second comes later by the limit or more, the second speaks, unless the first
/// look found nothing new or it was told of before.
pub proof fn law_stall_is_told(b: Beacon, first: Look, second: Look, limit: u64)
    requires
        !b.fired,
        first.over,
        0 < first.reaped < first.pushed,
        b.progress == 0,
        first.now > 0,
        second.over,
        second.pushed == first.pushed,
        second.reaped == first.reaped,
        second.now - first.now >= limit,
    ensures
        !speaks(b, first, limit),
        speaks(looked(b, first, limit), second, limit),
        looked(looked(b, first, limit), second, limit).fired,
{
}

/// A session is over when its root is gone, has ended or is to stop, and not before; without a
/// root there is none.
pub proof fn law_session_ends_with_its_root(beacon: Beacon, room: Room)
    ensures
        beacon.root == 0 ==> !session_over(beacon, room),
        beacon.root != 0 && !room@.tasks.contains_key(beacon.root) ==> session_over(beacon, room),
        beacon.root != 0 && room@.tasks.contains_key(beacon.root) ==> (session_over(beacon, room)
            <==> room@.tasks[beacon.root].buried || room@.tasks[beacon.root].state is Reaped
            || room@.tasks[beacon.root].state is Doomed),
        STALL_MS == 2_000,
{
}

} // verus!
