//! The conductor: machine-wide state that no single hart owns.
//!
//! It counts tasks in and out, decides when the machine is done, keeps the set of
//! harts that wait for an interrupt, and picks the hart that gets the next piece of
//! work.
pub mod boot;
pub mod pit;
pub mod task;
pub mod trap;
pub mod utask;

use vstd::prelude::*;
use crate::bits::{Bitmap, Ipi, MAX_HART_SLOTS, WAITING_WORDS, WORD_BITS};
use crate::bits::{bit, reaches_all, rotated, word_calls};

verus! {

/// How often the leader of a halt spins at the barrier before it reports once.
pub const BARRIER_REPORT_AT: usize = 20_000_000;

/// The conductor's state.
pub struct Score {
    /// Tasks produced so far.
    pub pushed: usize,
    /// Tasks whose remains have been cleared away.
    pub reaped: usize,
    /// Whether the root service has been produced.
    pub rooted: bool,
    /// Whether some hart leads the halt.
    pub halting: bool,
    /// Harts that have arrived at the halt.
    pub arrived: usize,
    /// Harts that wait for an interrupt.
    pub waiting: Bitmap,
    /// The rotating start of [`pick`].
    pub cursor: usize,
    /// Kicks that sent an interrupt.
    pub kicks: usize,
    /// Kicks to a hart that was not waiting.
    pub fallback: usize,
    /// Shutdown hooks in the order in which they run, once they are set.
    pub hooks: Option<Vec<usize>>,
}

/// The part of a [`Score`] that [`sleep`], [`wake`] and [`pick`] leave alone.
pub open spec fn same_counts(a: Score, b: Score) -> bool {
    &&& a.pushed == b.pushed
    &&& a.reaped == b.reaped
    &&& a.rooted == b.rooted
    &&& a.halting == b.halting
    &&& a.arrived == b.arrived
    &&& a.kicks == b.kicks
    &&& a.fallback == b.fallback
    &&& a.hooks == b.hooks
}

impl Score {
    /// Whether `hart` waits for an interrupt.
    pub open spec fn waits(self, hart: int) -> bool {
        self.waiting.has(hart)
    }

    /// A machine on which nothing has happened.
    pub fn new() -> (s: Score)
        ensures
            s.pushed == 0 && s.reaped == 0 && s.arrived == 0 && s.cursor == 0,
            s.kicks == 0 && s.fallback == 0,
            !s.rooted && !s.halting,
            s.hooks is None,
            forall|h: int| !s.waits(h),
    {
        Score {
            pushed: 0,
            reaped: 0,
            rooted: false,
            halting: false,
            arrived: 0,
            waiting: Bitmap::new(),
            cursor: 0,
            kicks: 0,
            fallback: 0,
            hooks: None,
        }
    }
}

/// Counts one produced task. The counter wraps, as machine counters do.
pub fn push(score: &mut Score)
    ensures
        *final(score) == (Score {
            pushed: old(score).pushed.wrapping_add(1),
            ..*old(score)
        }),
{
    score.pushed = score.pushed.wrapping_add(1);
}

/// Counts one task whose remains have been cleared away.
pub fn exit(score: &mut Score)
    ensures
        *final(score) == (Score {
            reaped: old(score).reaped.wrapping_add(1),
            ..*old(score)
        }),
{
    score.reaped = score.reaped.wrapping_add(1);
}

/// Whether every task is gone: the root service was produced, and either nothing
/// was ever counted or everything that was has been cleared away.
pub open spec fn is_done(score: Score) -> bool {
    score.rooted && (score.pushed == 0 || score.reaped == score.pushed)
}

/// Computes [`is_done`].
pub fn done(score: &Score) -> (yes: bool)
    ensures
        yes == is_done(*score),
{
    score.rooted && (score.pushed == 0 || score.reaped == score.pushed)
}

/// What can be told to the counters.
pub enum Mark {
    /// A task was produced.
    Push,
    /// A task was cleared away.
    Exit,
    /// The root service was produced.
    Rooted,
}

/// The score after `marks` were told to it, one after the other.
pub open spec fn told(s: Score, marks: Seq<Mark>) -> Score
    decreases marks.len(),
{
    if marks.len() == 0 {
        s
    } else {
        let t = told(s, marks.drop_last());
        match marks.last() {
            Mark::Push => Score { pushed: t.pushed.wrapping_add(1), ..t },
            Mark::Exit => Score { reaped: t.reaped.wrapping_add(1), ..t },
            Mark::Rooted => Score { rooted: true, ..t },
        }
    }
}

/// How often `mark` is among `marks`.
pub open spec fn times(marks: Seq<Mark>, mark: Mark) -> nat
    decreases marks.len(),
{
    if marks.len() == 0 {
        0
    } else {
        times(marks.drop_last(), mark) + if marks.last() == mark {
            1nat
        } else {
            0nat
        }
    }
}

/// Whatever the order in which tasks are produced and cleared away and the root service comes,
/// all is done exactly where the root service came and as many were cleared away as produced.
pub proof fn law_done_in_any_order(s: Score, marks: Seq<Mark>)
    requires
        s.pushed == 0 && s.reaped == 0 && !s.rooted,
        times(marks, Mark::Push) <= usize::MAX,
        times(marks, Mark::Exit) <= usize::MAX,
    ensures
        told(s, marks).pushed == times(marks, Mark::Push),
        told(s, marks).reaped == times(marks, Mark::Exit),
        is_done(told(s, marks)) <==> times(marks, Mark::Rooted) > 0 && (times(marks, Mark::Push)
            == 0 || times(marks, Mark::Exit) == times(marks, Mark::Push)),
{
    lemma_told(s, marks);
}

proof fn lemma_told(s: Score, marks: Seq<Mark>)
    requires
        s.pushed == 0 && s.reaped == 0 && !s.rooted,
        times(marks, Mark::Push) <= usize::MAX,
        times(marks, Mark::Exit) <= usize::MAX,
    ensures
        told(s, marks).pushed == times(marks, Mark::Push),
        told(s, marks).reaped == times(marks, Mark::Exit),
        told(s, marks).rooted <==> times(marks, Mark::Rooted) > 0,
    decreases marks.len(),
{
    if marks.len() > 0 {
        lemma_told(s, marks.drop_last());
    }
}

/// The counters: produced, cleared away.
pub fn counts(score: &Score) -> (c: (usize, usize))
    ensures
        c == (score.pushed, score.reaped),
{
    (score.pushed, score.reaped)
}

/// The halt barrier: harts that arrived, harts that have to.
pub fn barrier(score: &Score, hart_count: usize) -> (b: (usize, usize))
    ensures
        b == (score.arrived, hart_count),
{
    (score.arrived, hart_count)
}

/// Records that the root service has been produced.
pub fn rooted(score: &mut Score)
    ensures
        *final(score) == (Score { rooted: true, ..*old(score) }),
{
    score.rooted = true;
}

/// Sets the shutdown hooks. Only the first call counts.
pub fn hook(score: &mut Score, hooks: Vec<usize>)
    ensures
        old(score).hooks is None ==> *final(score) == (Score {
            hooks: Some(hooks),
            ..*old(score)
        }),
        old(score).hooks is Some ==> *final(score) == *old(score),
{
    if score.hooks.is_none() {
        score.hooks = Some(hooks);
    }
}

/// The shutdown hooks, in order; none where none were set.
pub open spec fn hooks_of(score: Score) -> Seq<usize> {
    match score.hooks {
        Some(hooks) => hooks@,
        None => Seq::<usize>::empty(),
    }
}

/// The hooks to run at shutdown, in order; none where none were set.
pub fn hooked(score: &Score) -> (run: Vec<usize>)
    ensures
        run@ == hooks_of(*score),
{
    match &score.hooks {
        None => Vec::new(),
        Some(hooks) => {
            let mut run: Vec<usize> = Vec::new();
            let mut i: usize = 0;
            while i < hooks.len()
                invariant
                    i <= hooks@.len(),
                    run@ == hooks@.take(i as int),
                decreases hooks@.len() - i,
            {
                run.push(hooks[i]);
                i += 1;
                assert(hooks@.take(i as int) == hooks@.take(i - 1).push(hooks@[i - 1]));
            }
            assert(hooks@.take(i as int) == hooks@);
            run
        },
    }
}

/// Marks `hart` as waiting for an interrupt. The caller looks at its queue once more
/// before it sleeps.
pub fn sleep(score: &mut Score, hart: usize)
    requires
        hart < MAX_HART_SLOTS,
    ensures
        forall|h: int| #[trigger] final(score).waits(h) <==> (h == hart || old(score).waits(h)),
        same_counts(*final(score), *old(score)),
        final(score).cursor == old(score).cursor,
{
    score.waiting.set(hart);
}

/// Takes the waiting mark of `hart` away.
pub fn wake(score: &mut Score, hart: usize)
    requires
        hart < MAX_HART_SLOTS,
    ensures
        forall|h: int| #[trigger] final(score).waits(h) <==> (h != hart && old(score).waits(h)),
        same_counts(*final(score), *old(score)),
        final(score).cursor == old(score).cursor,
{
    score.waiting.clear(hart);
}

/// Whether `hart` is marked as waiting.
pub fn waiting(score: &Score, hart: usize) -> (yes: bool)
    requires
        hart < MAX_HART_SLOTS,
    ensures
        yes == score.waits(hart as int),
{
    score.waiting.test(hart)
}

/// How far `hart`'s bit lies from the start `seat`, going up and round in a word.
pub open spec fn distance(seat: usize, hart: int) -> int {
    (hart % 64 + 64 - seat as int % 64) % 64
}

/// Whether `hart` is what [`pick`] gives from `score` on a machine of `n` harts, asked
/// by hart `me`: the nearest waiting hart from the cursor on, the lowest of those that
/// are equally near; with nobody waiting the cursor's own hart, but not the asking one
/// where there is another.
pub open spec fn picked(score: Score, me: usize, n: usize, hart: usize) -> bool {
    if exists|h: int| #[trigger] score.waits(h) {
        &&& score.waits(hart as int)
        &&& forall|h: int| #[trigger]
            score.waits(h) ==> distance(score.cursor, hart as int) < distance(score.cursor, h) || (
            distance(score.cursor, hart as int) == distance(score.cursor, h) && hart <= h)
    } else {
        hart == fallback_hart(score.cursor, me, n)
    }
}

/// The hart that gets work when nobody waits.
pub open spec fn fallback_hart(seat: usize, me: usize, n: usize) -> int {
    let to = seat as int % n as int;
    if n > 1 && to == me {
        (to + 1) % n as int
    } else {
        to
    }
}

/// The hart that [`pick`] gives.
pub open spec fn pick_of(score: Score, me: usize, n: usize) -> usize {
    choose|h: usize| picked(score, me, n, h)
}

/// There is only one hart that [`pick`] can give.
pub proof fn lemma_picked_unique(score: Score, me: usize, n: usize, a: usize, b: usize)
    requires
        picked(score, me, n, a),
        picked(score, me, n, b),
    ensures
        a == b,
{
    if exists|h: int| #[trigger] score.waits(h) {
        assert(score.waits(a as int) && score.waits(b as int));
    }
}

/// Picks the hart that gets the next piece of work, and moves the cursor on.
pub fn pick(score: &mut Score, me: usize, n: usize) -> (hart: usize)
    requires
        n > 0,
    ensures
        picked(*old(score), me, n, hart),
        *final(score) == (Score { cursor: old(score).cursor.wrapping_add(1), ..*old(score) }),
        hart < n || old(score).waits(hart as int),
{
    let seat: usize = score.cursor;
    score.cursor = seat.wrapping_add(1);
    let sm: usize = seat % WORD_BITS;
    let mut best_rel: usize = usize::MAX;
    let mut best_hart: usize = 0;
    let mut w: usize = 0;
    while w < WAITING_WORDS
        invariant
            w <= WAITING_WORDS,
            sm == seat % 64,
            sm < 64,
            *score == (Score { cursor: old(score).cursor.wrapping_add(1), ..*old(score) }),
            seat == old(score).cursor,
            best_rel == usize::MAX || best_rel < 64,
            best_rel == usize::MAX ==> forall|h: int| 0 <= h < w * 64 ==> !#[trigger] old(
                score,
            ).waits(h),
            best_rel != usize::MAX ==> {
                &&& best_hart < w * 64
                &&& old(score).waits(best_hart as int)
                &&& best_rel == distance(seat, best_hart as int)
                &&& forall|h: int|
                    0 <= h < w * 64 && #[trigger] old(score).waits(h) ==> best_rel < distance(
                        seat,
                        h,
                    ) || (best_rel == distance(seat, h) && best_hart <= h)
            },
        decreases WAITING_WORDS - w,
    {
        let bits: u64 = score.waiting.word(w);
        if bits != 0 {
            let rot: u64 = if sm == 0 {
                bits
            } else {
                (bits >> (sm as u64)) | (bits << ((WORD_BITS - sm) as u64))
            };
            let rel: usize = rot.trailing_zeros() as usize;
            proof {
                lemma_nearest(bits, sm as int);
            }
            let at: usize = (sm + rel) % WORD_BITS;
            let hart: usize = w * WORD_BITS + at;
            proof {
                assert(rot == rotated(bits, sm as int));
                assert(bit(bits, at as int));
                assert(old(score).waits(w * 64 + at as int));
                assert(hart as int % 64 == at);
                lemma_distance(seat, hart as int, rel as int);
                assert forall|h: int| w * 64 <= h < (w + 1) * 64 && #[trigger] old(score).waits(
                    h,
                ) implies rel < distance(seat, h) || (rel == distance(seat, h) && hart <= h) by {
                    let b = h - w * 64;
                    assert(old(score).waits(w * 64 + b));
                    assert(bit(bits, b));
                    assert(h % 64 == b);
                    let r = distance(seat, h);
                    assert((sm + r) % 64 == b);
                    if r == rel {
                        assert(b == at);
                    }
                }
            }
            if rel < best_rel {
                best_rel = rel;
                best_hart = hart;
            }
        } else {
            proof {
                assert forall|h: int| w * 64 <= h < (w + 1) * 64 implies !#[trigger] old(
                    score,
                ).waits(h) by {
                    let b = h - w * 64;
                    assert(!old(score).waits(w * 64 + b));
                }
            }
        }
        w += 1;
    }
    proof {
        old(score).waiting.lemma_range();
    }
    if best_rel != usize::MAX {
        best_hart
    } else {
        let mut to: usize = seat % n;
        if n > 1 && to == me {
            to = (to + 1) % n;
        }
        to
    }
}

/// Counts a kick that sent an interrupt.
pub fn note_kick_ipi(score: &mut Score)
    ensures
        *final(score) == (Score { kicks: old(score).kicks.wrapping_add(1), ..*old(score) }),
{
    score.kicks = score.kicks.wrapping_add(1);
}

/// Counts a kick to a hart that was not waiting.
pub fn note_fallback(score: &mut Score)
    ensures
        *final(score) == (Score { fallback: old(score).fallback.wrapping_add(1), ..*old(score) }),
{
    score.fallback = score.fallback.wrapping_add(1);
}

/// The kick counters: interrupts sent, harts found awake.
pub fn kick_stats(score: &Score) -> (c: (usize, usize))
    ensures
        c == (score.kicks, score.fallback),
{
    (score.kicks, score.fallback)
}

/// Whether `calls` interrupt the waiting harts and nobody else.
pub open spec fn covers(calls: Seq<Ipi>, score: Score) -> bool {
    reaches_all(calls, score.waiting)
}

/// The calls that interrupt every waiting hart, one for each word that has any.
pub fn yell(score: &Score) -> (calls: Vec<Ipi>)
    ensures
        word_calls(calls@, score.waiting),
        covers(calls@, *score),
{
    score.waiting.calls()
}

/// The call that interrupts `hart` alone.
pub open spec fn nudge_call(hart: int) -> Ipi {
    Ipi { mask: 1u64 << ((hart % 64) as u64), base: (hart / 64 * 64) as usize }
}

/// Computes [`nudge_call`].
pub fn nudge(hart: usize) -> (call: Ipi)
    requires
        hart < MAX_HART_SLOTS,
    ensures
        call == nudge_call(hart as int),
        forall|h: int| #[trigger] call.reaches(h) <==> h == hart,
        call.base == hart / 64 * 64,
{
    let w: usize = hart / WORD_BITS;
    let b: u64 = (hart % WORD_BITS) as u64;
    let call: Ipi = Ipi { mask: 1u64 << b, base: w * WORD_BITS };
    proof {
        crate::bits::lemma_set_bit(0, b as int);
        crate::bits::lemma_zero_word(0);
        assert(0u64 | (1u64 << b) == 1u64 << b) by (bit_vector);
        assert forall|h: int| #[trigger] call.reaches(h) <==> h == hart by {
            if call.base <= h < call.base + 64 {
                assert(bit(0u64 | (1u64 << b), h - call.base) <==> h - call.base == b);
            }
        }
    }
    call
}

/// What a hart that has seen the machine done is to do next.
pub enum Halt {
    /// This hart leads: it makes these calls and goes to the barrier.
    Lead(Vec<Ipi>),
    /// Another hart leads: this one sleeps until the reset.
    Follow,
}

/// The score after one more hart has arrived at the halt.
pub open spec fn halted(s: Score) -> Score {
    Score { arrived: s.arrived.wrapping_add(1), halting: true, ..s }
}

/// Arrives at the halt. The first hart to arrive leads.
pub fn halt(score: &mut Score) -> (h: Halt)
    ensures
        *final(score) == halted(*old(score)),
        h is Lead <==> !old(score).halting,
        h is Lead ==> covers(h->Lead_0@, *old(score)) && word_calls(
            h->Lead_0@,
            old(score).waiting,
        ),
{
    score.arrived = score.arrived.wrapping_add(1);
    if score.halting {
        Halt::Follow
    } else {
        score.halting = true;
        let calls: Vec<Ipi> = yell(score);
        Halt::Lead(calls)
    }
}

/// What the leader does at the barrier.
#[derive(Clone, Copy, Debug, PartialEq, Eq, Structural)]
pub enum Barrier {
    /// Every hart is here: go on.
    Open,
    /// Spin once more.
    Spin,
    /// Say once who is missing, then spin once more.
    Report { arrived: usize, total: usize, pushed: usize, reaped: usize, missing: usize },
}

/// One look at the barrier after `spins` earlier ones. The report is made on exactly
/// one of them.
pub fn stand(score: &Score, hart_count: usize, spins: usize) -> (b: Barrier)
    ensures
        b is Open <==> score.arrived >= hart_count,
        b is Report <==> score.arrived < hart_count && spins + 1 == BARRIER_REPORT_AT,
        b matches Barrier::Report { arrived, total, pushed, reaped, missing } ==> {
            &&& arrived == score.arrived
            &&& total == hart_count
            &&& pushed == score.pushed
            &&& reaped == score.reaped
            &&& missing == (if pushed >= reaped {
                pushed - reaped
            } else {
                0
            })
        },
{
    if score.arrived >= hart_count {
        return Barrier::Open;
    }
    if spins == BARRIER_REPORT_AT - 1 {
        let (arrived, total) = barrier(score, hart_count);
        let (pushed, reaped) = counts(score);
        return Barrier::Report {
            arrived,
            total,
            pushed,
            reaped,
            missing: pushed.saturating_sub(reaped),
        };
    }
    Barrier::Spin
}

/// The average of `n` delays that add up to `sum`, nothing where there was none.
pub fn late_average(n: u64, sum: u64) -> (avg: u64)
    ensures
        avg == (if n == 0 {
            0
        } else {
            sum / n
        }),
{
    if n == 0 {
        0
    } else {
        sum / n
    }
}

/// How one task ended.
#[derive(Clone, Copy, Debug, PartialEq, Eq, Structural)]
pub struct Entry {
    pub task: usize,
    pub reason: usize,
}

/// How the machine goes down.
#[derive(Clone, Copy, Debug, PartialEq, Eq, Structural)]
pub enum Verdict {
    /// A test run in which nothing was ever produced: a failure.
    Void,
    /// A test run in which nobody panicked.
    Pass,
    /// A test run in which this entry panicked first.
    Blame(Entry),
    /// No test run: the machine resets.
    Reset,
}

impl Verdict {
    /// The exit status of a test run; `None` where the machine resets.
    pub open spec fn status(self) -> Option<int> {
        match self {
            Verdict::Void => Some(101),
            Verdict::Pass => Some(0),
            Verdict::Blame(_) => Some(101),
            Verdict::Reset => None,
        }
    }

    /// The exit status, where the machine exits.
    pub fn exit_status(&self) -> (s: Option<i32>)
        ensures
            s is Some <==> self.status() is Some,
            s is Some ==> s->0 == self.status()->0,
    {
        match self {
            Verdict::Void => Some(101),
            Verdict::Pass => Some(0),
            Verdict::Blame(_) => Some(101),
            Verdict::Reset => None,
        }
    }
}

/// Judges a run by its ledger, in the order of its entries. `panic` is the reason that
/// a panicked task leaves behind.
pub fn verdict(score: &Score, testing: bool, ledger: &Vec<Entry>, panic: usize) -> (v: Verdict)
    ensures
        v is Reset <==> !testing,
        v is Void <==> testing && score.pushed == 0,
        v is Pass <==> testing && score.pushed != 0 && forall|i: int|
            0 <= i < ledger@.len() ==> (#[trigger] ledger@[i]).reason != panic,
        v matches Verdict::Blame(e) ==> exists|i: int|
            0 <= i < ledger@.len() && #[trigger] ledger@[i] == e && e.reason == panic && forall|
                j: int,
            |
                0 <= j < i ==> (#[trigger] ledger@[j]).reason != panic,
{
    if !testing {
        return Verdict::Reset;
    }
    if counts(score).0 == 0 {
        return Verdict::Void;
    }
    let mut i: usize = 0;
    while i < ledger.len()
        invariant
            i <= ledger@.len(),
            testing,
            score.pushed != 0,
            forall|j: int| 0 <= j < i ==> (#[trigger] ledger@[j]).reason != panic,
        decreases ledger@.len() - i,
    {
        let e: Entry = ledger[i];
        if e.reason == panic {
            return Verdict::Blame(e);
        }
        i += 1;
    }
    Verdict::Pass
}

/// The lowest set bit of the rotated word is the nearest set bit from `by` on.
proof fn lemma_nearest(w: u64, by: int)
    requires
        0 <= by < 64,
        w != 0,
    ensures
        ({
            let rel = vstd::std_specs::bits::u64_trailing_zeros(rotated(w, by)) as int;
            &&& 0 <= rel < 64
            &&& bit(w, (by + rel) % 64)
            &&& forall|r: int| 0 <= r < 64 && #[trigger] bit(w, (by + r) % 64) ==> rel <= r
        }),
{
    let rot = rotated(w, by);
    crate::bits::lemma_rotated(w, by);
    vstd::std_specs::bits::axiom_u64_trailing_zeros(rot);
    let rel = vstd::std_specs::bits::u64_trailing_zeros(rot) as int;
    assert(bit(rot, rel));
    assert forall|r: int| 0 <= r < 64 && #[trigger] bit(w, (by + r) % 64) implies rel <= r by {
        assert(bit(rot, r));
        if r < rel {
            assert((rot >> (r as u64)) & 1u64 == 0u64);
        }
    }
}

proof fn lemma_distance(seat: usize, hart: int, rel: int)
    requires
        0 <= hart,
        0 <= rel < 64,
        hart % 64 == (seat as int % 64 + rel) % 64,
    ensures
        distance(seat, hart) == rel,
{
}

} // verus!
