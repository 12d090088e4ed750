//! Reading the clock's entries: which deadlines have passed, and which comes next.
use vstd::prelude::*;
use crate::room::{Room, RoomView};
use crate::room::messenger::wait::{claims, deadline_of, gone_to_wait, sited, stays};
use crate::room::messenger::wait::holder::voided;
use crate::room::messenger::wait::site::WakeKey;
use crate::table::Table;

verus! {

/// Whether the deadline of `a` comes before that of `b`; of two at the same time the one with
/// the lower ticket does.
pub open spec fn earlier(clock: Map<u64, u64>, a: u64, b: u64) -> bool {
    clock[a] < clock[b] || (clock[a] == clock[b] && a < b)
}

/// Whether `list` has every ticket whose deadline has passed at `now`, and no other, the
/// earliest first.
pub open spec fn passed(clock: Map<u64, u64>, now: u64, list: Seq<u64>) -> bool {
    &&& forall|i: int|
        0 <= i < list.len() ==> clock.contains_key(#[trigger] list[i]) && clock[list[i]] <= now
    &&& forall|i: int, j: int|
        0 <= i < j < list.len() ==> earlier(clock, #[trigger] list[i], #[trigger] list[j])
    &&& forall|t: u64| #[trigger]
        clock.contains_key(t) && clock[t] <= now ==> list.contains(t)
}

/// The tickets whose deadline has passed at `now`, the earliest first.
pub open spec fn due_of(clock: Map<u64, u64>, now: u64) -> Seq<u64> {
    choose|list: Seq<u64>| passed(clock, now, list)
}

/// How many deadlines are dealt with at one time; the others wait for the next time.
pub const MAX_DUE: usize = 64;

/// The tickets that are dealt with at `now`: the first [`MAX_DUE`] of those whose deadline has
/// passed.
pub open spec fn batch_of(clock: Map<u64, u64>, now: u64) -> Seq<u64> {
    let list = due_of(clock, now);
    if list.len() <= MAX_DUE {
        list
    } else {
        list.take(MAX_DUE as int)
    }
}

/// Whether the deadline of `t` has passed at `now` and comes after that of `last`.
spec fn open_after(clock: Map<u64, u64>, last: Option<u64>, now: u64, t: u64) -> bool {
    clock.contains_key(t) && clock[t] <= now && (last is Some ==> earlier(clock, last->0, t))
}

/// The first of the entries after `last` that have passed at `now`.
fn first_after(clock: &Table<u64, u64>, last: Option<u64>, now: u64) -> (r: Option<u64>)
    requires
        last is Some ==> clock@.contains_key(last->0),
    ensures
        r is None ==> forall|t: u64| !(#[trigger] open_after(clock@, last, now, t)),
        r matches Some(t) ==> open_after(clock@, last, now, t) && forall|u: u64|
            #[trigger] open_after(clock@, last, now, u) ==> u == t || earlier(clock@, t, u),
{
    let mut r: Option<u64> = None;
    let n: usize = clock.len();
    let mut i: usize = 0;
    while i < n
        invariant
            n == clock.order().len(),
            i <= n,
            forall|k: u64| clock.order().contains(k) <==> clock@.contains_key(k),
            last is Some ==> clock@.contains_key(last->0),
            r is None ==> forall|j: int|
                0 <= j < i ==> !open_after(clock@, last, now, #[trigger] clock.order()[j]),
            r matches Some(t) ==> open_after(clock@, last, now, t) && forall|j: int|
                0 <= j < i && open_after(clock@, last, now, #[trigger] clock.order()[j])
                    ==> clock.order()[j] == t || earlier(clock@, t, clock.order()[j]),
        decreases n - i,
    {
        let t: u64 = clock.key_at(i);
        let at: u64 = at_of(clock, t);
        let mut fits: bool = at <= now;
        if let Some(l) = last {
            let bound: u64 = at_of(clock, l);
            fits = fits && (bound < at || (bound == at && l < t));
        }
        assert(fits == open_after(clock@, last, now, t));
        if fits {
            match r {
                None => {
                    r = Some(t);
                },
                Some(best) => {
                    let least: u64 = at_of(clock, best);
                    if at < least || (at == least && t < best) {
                        r = Some(t);
                    }
                },
            }
        }
        i += 1;
    }
    proof {
        assert forall|u: u64| #[trigger] open_after(clock@, last, now, u) implies r is Some && (u
            == r->0 || earlier(clock@, r->0, u)) by {
            assert(clock.order().contains(u));
            let j = choose|j: int| 0 <= j < clock.order().len() && clock.order()[j] == u;
            assert(open_after(clock@, last, now, clock.order()[j]));
        }
    }
    r
}

fn at_of(clock: &Table<u64, u64>, t: u64) -> (at: u64)
    requires
        clock@.contains_key(t),
    ensures
        at == clock@[t],
{
    match clock.get(t) {
        Some(at) => *at,
        None => 0,
    }
}

/// A list of different tickets is not longer than the clock.
proof fn lemma_fits(clock: Map<u64, u64>, list: Seq<u64>)
    requires
        clock.dom().finite(),
        forall|i: int| 0 <= i < list.len() ==> clock.contains_key(#[trigger] list[i]),
        forall|i: int, j: int|
            0 <= i < j < list.len() ==> earlier(clock, #[trigger] list[i], #[trigger] list[j]),
    ensures
        list.len() <= clock.dom().len(),
{
    assert(list.no_duplicates());
    list.unique_seq_to_set();
    assert forall|t: u64| list.to_set().contains(t) implies clock.dom().contains(t) by {
        let i = choose|i: int| 0 <= i < list.len() && list[i] == t;
        assert(clock.contains_key(list[i]));
    }
    vstd::set_lib::lemma_len_subset(list.to_set(), clock.dom());
}

/// The tickets whose deadline has passed at `now`, the earliest first. Redeeming them takes
/// them out of the clock.
pub fn due(room: &Room, now: u64) -> (list: Vec<u64>)
    ensures
        list@ == due_of(room@.clock, now),
        passed(room@.clock, now, list@),
{
    let mut list: Vec<u64> = Vec::new();
    let mut last: Option<u64> = None;
    let n: usize = room.clock.len();
    loop
        invariant
            n == room.clock@.dom().len(),
            room.clock@.dom().finite(),
            last == (if list@.len() == 0 {
                None
            } else {
                Some(list@.last())
            }),
            list@.len() <= n,
            forall|i: int|
                0 <= i < list@.len() ==> room.clock@.contains_key(#[trigger] list@[i])
                    && room.clock@[list@[i]] <= now,
            forall|i: int, j: int|
                0 <= i < j < list@.len() ==> earlier(
                    room.clock@,
                    #[trigger] list@[i],
                    #[trigger] list@[j],
                ),
            forall|t: u64| #[trigger]
                room.clock@.contains_key(t) && room.clock@[t] <= now ==> list@.contains(t)
                    || open_after(room.clock@, last, now, t),
        decreases n - list@.len(),
    {
        match first_after(&room.clock, last, now) {
            None => {
                proof {
                    assert(passed(room@.clock, now, list@));
                    law_due_is_one_list(room@.clock, now, list@, due_of(room@.clock, now));
                }
                return list;
            },
            Some(t) => {
                let ghost was = list@;
                let ghost before = last;
                list.push(t);
                last = Some(t);
                proof {
                    assert forall|i: int, j: int| 0 <= i < j < list@.len() implies earlier(
                        room.clock@,
                        #[trigger] list@[i],
                        #[trigger] list@[j],
                    ) by {
                        if j == was.len() && i < was.len() - 1 {
                            assert(earlier(room.clock@, was[i], was[was.len() - 1]));
                        }
                    }
                    lemma_fits(room.clock@, list@);
                    assert forall|u: u64| #[trigger]
                        room.clock@.contains_key(u) && room.clock@[u]
                            <= now implies list@.contains(u) || open_after(
                        room.clock@,
                        last,
                        now,
                        u,
                    ) by {
                        if was.contains(u) {
                            let i = choose|i: int| 0 <= i < was.len() && was[i] == u;
                            assert(list@[i] == u);
                        } else {
                            assert(open_after(room.clock@, before, now, u));
                            assert(list@[was.len() as int] == t);
                        }
                    }
                }
            },
        }
    }
}

/// Computes [`batch_of`].
pub fn drain(room: &Room, now: u64) -> (list: Vec<u64>)
    ensures
        list@ == batch_of(room@.clock, now),
        passed(room@.clock, now, due_of(room@.clock, now)),
{
    let mut list: Vec<u64> = due(room, now);
    if list.len() > MAX_DUE {
        list.truncate(MAX_DUE);
    }
    list
}

/// When the next deadline passes; `None` where the clock has none.
pub fn next(room: &Room) -> (at: Option<u64>)
    ensures
        at is None <==> room@.clock.dom() == Set::<u64>::empty(),
        at matches Some(n) ==> (exists|t: u64| #[trigger]
            room@.clock.contains_key(t) && room@.clock[t] == n) && forall|t: u64| #[trigger]
            room@.clock.contains_key(t) ==> n <= room@.clock[t],
{
    match first_after(&room.clock, None, u64::MAX) {
        None => {
            proof {
                assert forall|t: u64| !room.clock@.dom().contains(t) by {
                    assert(!open_after(room.clock@, None, u64::MAX, t));
                }
                assert(room.clock@.dom() =~= Set::<u64>::empty());
            }
            None
        },
        Some(t) => {
            proof {
                assert(room.clock@.dom().contains(t));
                assert forall|u: u64| #[trigger]
                    room.clock@.contains_key(u) implies room.clock@[t] <= room.clock@[u] by {
                    assert(open_after(room.clock@, None, u64::MAX, u));
                }
            }
            Some(at_of(&room.clock, t))
        },
    }
}

/// When the timer of a hart is to ring that would otherwise ring at `at`: then, or with the
/// next deadline if that comes first.
pub fn beat_until(room: &Room, at: u64) -> (ring: u64)
    ensures
        ring <= at,
        forall|t: u64| #[trigger] room@.clock.contains_key(t) ==> ring <= room@.clock[t],
        ring == at || exists|t: u64| #[trigger]
            room@.clock.contains_key(t) && room@.clock[t] == ring,
{
    match next(room) {
        None => {
            assert(room.clock@.dom() == Set::<u64>::empty());
            assert forall|t: u64| !room.clock@.contains_key(t) by {
                assert(!room.clock@.dom().contains(t));
            }
            at
        },
        Some(n) => {
            if n < at {
                n
            } else {
                at
            }
        },
    }
}

/// Redeeming takes out of the clock what was redeemed, and nothing else.
pub proof fn law_redeemed_are_out(v: RoomView, list: Seq<u64>)
    ensures
        forall|t: u64| #[trigger]
            claims(v, list).0.clock.contains_key(t) <==> v.clock.contains_key(t)
                && !list.contains(t),
        forall|t: u64| #[trigger]
            claims(v, list).0.clock.contains_key(t) ==> claims(v, list).0.clock[t] == v.clock[t],
    decreases list.len(),
{
    if list.len() > 0 {
        let rest = list.drop_last();
        let w = claims(v, rest).0;
        law_redeemed_are_out(v, rest);
        assert(claims(v, list).0.clock == voided(w, list.last()).clock);
        assert forall|t: u64| list.contains(t) <==> rest.contains(t) || t == list.last() by {
            if list.contains(t) {
                let i = choose|i: int| 0 <= i < list.len() && list[i] == t;
                if i < rest.len() {
                    assert(rest[i] == t);
                }
            }
            if rest.contains(t) {
                let i = choose|i: int| 0 <= i < rest.len() && rest[i] == t;
                assert(list[i] == t);
            }
            if t == list.last() {
                assert(list[list.len() - 1] == t);
            }
        }
    }
}

/// Where no more deadlines have passed than are dealt with at one time, none of them is left in
/// the clock once they were redeemed.
pub proof fn law_nothing_due_is_left(v: RoomView, now: u64)
    requires
        passed(v.clock, now, due_of(v.clock, now)),
        due_of(v.clock, now).len() <= MAX_DUE,
    ensures
        ({
            let w = claims(v, batch_of(v.clock, now)).0;
            forall|t: u64| #[trigger] w.clock.contains_key(t) ==> w.clock[t] > now
        }),
{
    law_redeemed_are_out(v, batch_of(v.clock, now));
}

/// Where more deadlines have passed than are dealt with at one time, the others are left, still
/// in their order, for the next time.
pub proof fn law_rest_is_due_next(v: RoomView, now: u64)
    requires
        passed(v.clock, now, due_of(v.clock, now)),
        due_of(v.clock, now).len() > MAX_DUE,
    ensures
        passed(
            claims(v, batch_of(v.clock, now)).0.clock,
            now,
            due_of(v.clock, now).skip(MAX_DUE as int),
        ),
        due_of(claims(v, batch_of(v.clock, now)).0.clock, now) == due_of(v.clock, now).skip(
            MAX_DUE as int,
        ),
{
    let all = due_of(v.clock, now);
    let first = batch_of(v.clock, now);
    let rest = all.skip(MAX_DUE as int);
    let clock = claims(v, first).0.clock;
    law_redeemed_are_out(v, first);
    assert forall|i: int| 0 <= i < rest.len() implies clock.contains_key(#[trigger] rest[i])
        && clock[rest[i]] == v.clock[rest[i]] && v.clock[rest[i]] <= now by {
        let t = rest[i];
        assert(t == all[MAX_DUE + i]);
        if first.contains(t) {
            let j = choose|j: int| 0 <= j < first.len() && first[j] == t;
            assert(first[j] == all[j]);
            assert(earlier(v.clock, all[j], all[MAX_DUE + i]));
        }
    }
    assert forall|i: int, j: int| 0 <= i < j < rest.len() implies earlier(
        clock,
        #[trigger] rest[i],
        #[trigger] rest[j],
    ) by {
        assert(earlier(v.clock, all[MAX_DUE + i], all[MAX_DUE + j]));
    }
    assert forall|t: u64| #[trigger]
        clock.contains_key(t) && clock[t] <= now implies rest.contains(t) by {
        assert(all.contains(t));
        let j = choose|j: int| 0 <= j < all.len() && all[j] == t;
        if j < MAX_DUE {
            assert(first[j] == t);
        } else {
            assert(rest[j - MAX_DUE] == t);
        }
    }
    law_due_is_one_list(clock, now, rest, due_of(clock, now));
}

/// A timed wait ends at its deadline: its ticket is due from then on, and not before.
pub proof fn law_wait_is_due_at_its_deadline(
    v: RoomView,
    me: usize,
    key: WakeKey,
    life: usize,
    now: u64,
    ticks: u64,
    later: u64,
    list: Seq<u64>,
)
    requires
        v.lanes[me as int].running is Some,
        stays(sited(v, key, life), key),
        now + ticks <= u64::MAX,
        passed(gone_to_wait(v, me, key, life, deadline_of(v, now, Some(ticks))).clock, later, list),
    ensures
        list.contains(v.next_ticket) <==> now + ticks <= later,
{
    let clock = gone_to_wait(v, me, key, life, deadline_of(v, now, Some(ticks))).clock;
    assert(clock.contains_key(v.next_ticket) && clock[v.next_ticket] == now + ticks);
    if list.contains(v.next_ticket) {
        let i = choose|i: int| 0 <= i < list.len() && list[i] == v.next_ticket;
        assert(clock[list[i]] <= later);
    }
}

/// There is one list of what is due.
pub proof fn law_due_is_one_list(clock: Map<u64, u64>, now: u64, a: Seq<u64>, b: Seq<u64>)
    requires
        passed(clock, now, a),
        passed(clock, now, b),
    ensures
        a == b,
    decreases a.len(),
{
    if a.len() == 0 {
        if b.len() > 0 {
            assert(a.contains(b[0]));
        }
        assert(a =~= b);
    } else {
        assert(b.contains(a[0]));
        let i = choose|i: int| 0 <= i < b.len() && b[i] == a[0];
        assert(a.contains(b[0]));
        let j = choose|j: int| 0 <= j < a.len() && a[j] == b[0];
        assert(a[0] == b[0]) by {
            if i > 0 && j > 0 {
                assert(earlier(clock, b[0], b[i]));
                assert(earlier(clock, a[0], a[j]));
            }
        }
        let rest = clock.remove(a[0]);
        assert forall|s: Seq<u64>| passed(clock, now, s) && s.len() > 0 && s[0] == a[0] implies passed(
            rest,
            now,
            #[trigger] s.drop_first(),
        ) by {
            let d = s.drop_first();
            assert forall|i: int| 0 <= i < d.len() implies rest.contains_key(#[trigger] d[i])
                && rest[d[i]] <= now by {
                assert(d[i] == s[i + 1]);
                assert(earlier(clock, s[0], s[i + 1]));
            }
            assert forall|i: int, j: int| 0 <= i < j < d.len() implies earlier(
                rest,
                #[trigger] d[i],
                #[trigger] d[j],
            ) by {
                assert(d[i] == s[i + 1] && d[j] == s[j + 1]);
                assert(earlier(clock, s[0], s[i + 1]));
                assert(earlier(clock, s[0], s[j + 1]));
                assert(earlier(clock, s[i + 1], s[j + 1]));
            }
            assert forall|t: u64| #[trigger]
                rest.contains_key(t) && rest[t] <= now implies d.contains(t) by {
                assert(clock.contains_key(t));
                assert(s.contains(t));
                let x = choose|x: int| 0 <= x < s.len() && s[x] == t;
                assert(x > 0);
                assert(d[x - 1] == t);
            }
        }
        law_due_is_one_list(rest, now, a.drop_first(), b.drop_first());
        assert(a =~= seq![a[0]] + a.drop_first());
        assert(b =~= seq![b[0]] + b.drop_first());
    }
}

} // verus!
