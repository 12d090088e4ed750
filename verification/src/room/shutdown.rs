//! The machine goes down: every hart arrives, one of them leads.
//!
//! A run of a shutdown is a sequence of moves. A hart arrives by [`crate::room::conductor::halt`],
//! which tells the first one to lead. The leader looks at the barrier
//! ([`crate::room::conductor::stand`]) until it is open, calls the hooks that
//! [`crate::room::conductor::hooked`] gives, one after the other, and resets the machine.
use vstd::prelude::*;
use crate::room::conductor::Score;
use crate::room::conductor::{halted, hooks_of};

verus! {

/// Where the leader stands.
pub enum Leader {
    /// Nobody leads yet.
    Nobody,
    /// At the barrier.
    Barrier,
    /// Past the barrier, with so many hooks called.
    Calling(nat),
    /// Done.
    Over,
}

/// What is done to the machine on the way down.
pub enum Deed {
    Hook(usize),
    Reset,
}

/// A machine that goes down.
pub struct Down {
    pub score: Score,
    /// The harts that have arrived.
    pub here: Set<int>,
    pub leader: Leader,
    /// What was done so far.
    pub deeds: Seq<Deed>,
}

/// A move on the way down.
pub enum Move {
    /// This hart arrives.
    Arrive(int),
    /// The leader finds the barrier open.
    Pass,
    /// The leader calls the next hook.
    Call,
    /// The leader resets the machine.
    Reset,
}

/// Whether `m` leads from `a` to `b` on a machine with `n` harts.
pub open spec fn moves(n: usize, a: Down, m: Move, b: Down) -> bool {
    let hooks = hooks_of(a.score);
    match m {
        Move::Arrive(h) => {
            &&& 0 <= h < n && !a.here.contains(h)
            &&& b == (Down {
                score: halted(a.score),
                here: a.here.insert(h),
                leader: if a.score.halting {
                    a.leader
                } else {
                    Leader::Barrier
                },
                ..a
            })
        },
        Move::Pass => {
            &&& a.leader is Barrier
            &&& a.score.arrived >= n
            &&& b == (Down { leader: Leader::Calling(0), ..a })
        },
        Move::Call => {
            &&& a.leader is Calling
            &&& a.leader->Calling_0 < hooks.len()
            &&& b == (Down {
                leader: Leader::Calling((a.leader->Calling_0 + 1) as nat),
                deeds: a.deeds.push(Deed::Hook(hooks[a.leader->Calling_0 as int])),
                ..a
            })
        },
        Move::Reset => {
            &&& a.leader == Leader::Calling(hooks.len())
            &&& b == (Down { leader: Leader::Over, deeds: a.deeds.push(Deed::Reset), ..a })
        },
    }
}

/// Whether the moves `run` lead from `a` to `b`.
pub open spec fn runs(n: usize, a: Down, run: Seq<Move>, b: Down) -> bool
    decreases run.len(),
{
    if run.len() == 0 {
        b == a
    } else {
        exists|mid: Down|
            runs(n, a, run.drop_last(), mid) && #[trigger] moves(n, mid, run.last(), b)
    }
}

/// A machine on which no hart has arrived.
pub open spec fn upright(d: Down) -> bool {
    &&& !d.score.halting && d.score.arrived == 0
    &&& d.here == Set::<int>::empty()
    &&& d.leader is Nobody
    &&& d.deeds == Seq::<Deed>::empty()
}

/// All that is done on the way down: the hooks in their order, and then the reset.
pub open spec fn agenda(hooks: Seq<usize>) -> Seq<Deed> {
    hooks.map_values(|h: usize| Deed::Hook(h)).push(Deed::Reset)
}

/// What is so at every point of the way down.
spec fn on_course(n: usize, d: Down) -> bool {
    let hooks = hooks_of(d.score);
    &&& d.here.finite()
    &&& forall|h: int| #[trigger] d.here.contains(h) ==> 0 <= h < n
    &&& d.score.arrived == d.here.len()
    &&& d.score.halting <==> d.here.len() > 0
    &&& d.leader is Nobody <==> !d.score.halting
    &&& match d.leader {
        Leader::Nobody => d.deeds.len() == 0,
        Leader::Barrier => d.deeds.len() == 0,
        Leader::Calling(i) => d.here.len() >= n && i <= hooks.len() && d.deeds == agenda(
            hooks,
        ).take(i as int),
        Leader::Over => d.here.len() >= n && d.deeds == agenda(hooks),
    }
}

proof fn lemma_few(n: usize, here: Set<int>)
    requires
        here.finite(),
        forall|h: int| #[trigger] here.contains(h) ==> 0 <= h < n,
    ensures
        here.len() <= n,
        here.len() >= n ==> forall|h: int| 0 <= h < n ==> #[trigger] here.contains(h),
{
    let all = vstd::set_lib::set_int_range(0, n as int);
    vstd::set_lib::lemma_int_range(0, n as int);
    assert(here.subset_of(all));
    vstd::set_lib::lemma_len_subset(here, all);
    if here.len() >= n {
        vstd::set_lib::lemma_subset_equality(here, all);
        assert forall|h: int| 0 <= h < n implies #[trigger] here.contains(h) by {
            assert(all.contains(h));
        }
    }
}

proof fn lemma_move_on_course(n: usize, a: Down, m: Move, b: Down)
    requires
        on_course(n, a),
        moves(n, a, m, b),
    ensures
        on_course(n, b),
        hooks_of(b.score) == hooks_of(a.score),
{
    let hooks = hooks_of(a.score);
    let all = agenda(hooks);
    match m {
        Move::Arrive(h) => {
            lemma_few(n, a.here);
            lemma_few(n, b.here);
        },
        Move::Pass => {
            assert(all.take(0) =~= Seq::<Deed>::empty());
            assert(a.deeds =~= Seq::<Deed>::empty());
        },
        Move::Call => {
            let i = a.leader->Calling_0 as int;
            assert(all[i] == Deed::Hook(hooks[i]));
            assert(all.take(i + 1) =~= all.take(i).push(all[i]));
        },
        Move::Reset => {
            let i = hooks.len() as int;
            assert(all =~= all.take(i).push(all[i]));
        },
    }
}

proof fn lemma_runs_on_course(n: usize, a: Down, run: Seq<Move>, b: Down)
    requires
        upright(a),
        runs(n, a, run, b),
    ensures
        on_course(n, b),
        hooks_of(b.score) == hooks_of(a.score),
    decreases run.len(),
{
    if run.len() > 0 {
        let mid = choose|mid: Down|
            runs(n, a, run.drop_last(), mid) && #[trigger] moves(n, mid, run.last(), b);
        lemma_runs_on_course(n, a, run.drop_last(), mid);
        lemma_move_on_course(n, mid, run.last(), b);
    }
}

/// Whatever the harts do in whatever order, the hooks are called once each and in their order,
/// the reset comes once and last, and nothing is done before every hart has arrived.
pub proof fn law_goes_down_in_order(n: usize, a: Down, run: Seq<Move>, b: Down)
    requires
        upright(a),
        runs(n, a, run, b),
    ensures
        b.deeds.is_prefix_of(agenda(hooks_of(a.score))),
        b.deeds.len() > 0 ==> forall|h: int| 0 <= h < n ==> #[trigger] b.here.contains(h),
        b.leader is Over <==> b.deeds == agenda(hooks_of(a.score)),
{
    lemma_runs_on_course(n, a, run, b);
    lemma_few(n, b.here);
    let all = agenda(hooks_of(a.score));
    if b.leader is Calling {
        let i = b.leader->Calling_0 as int;
        assert(b.deeds.len() == i);
        assert(b.deeds =~= all.subrange(0, i));
    }
    assert(all.len() == hooks_of(a.score).len() + 1);
    if b.leader is Over {
        assert(b.deeds =~= all.subrange(0, all.len() as int));
    }
}

/// The way down does not come to a halt: as long as the reset has not come and a hart has
/// arrived, some hart has still to arrive or the leader can go on.
pub proof fn law_goes_all_the_way_down(n: usize, a: Down, run: Seq<Move>, b: Down)
    requires
        upright(a),
        runs(n, a, run, b),
        b.score.halting,
        !(b.leader is Over),
    ensures
        exists|m: Move, c: Down| #[trigger] moves(n, b, m, c),
{
    lemma_runs_on_course(n, a, run, b);
    lemma_few(n, b.here);
    let hooks = hooks_of(b.score);
    match b.leader {
        Leader::Nobody => {},
        Leader::Barrier => {
            if b.here.len() >= n {
                assert(moves(n, b, Move::Pass, Down { leader: Leader::Calling(0), ..b }));
            } else {
                assert(exists|h: int| 0 <= h < n && !b.here.contains(h)) by {
                    if forall|h: int| 0 <= h < n ==> b.here.contains(h) {
                        let all = vstd::set_lib::set_int_range(0, n as int);
                        vstd::set_lib::lemma_int_range(0, n as int);
                        assert(all.subset_of(b.here));
                        vstd::set_lib::lemma_len_subset(all, b.here);
                    }
                }
                let h = choose|h: int| 0 <= h < n && !b.here.contains(h);
                let c = Down { score: halted(b.score), here: b.here.insert(h), ..b };
                assert(moves(n, b, Move::Arrive(h), c));
            }
        },
        Leader::Calling(i) => {
            if i < hooks.len() {
                let c = Down {
                    leader: Leader::Calling((i + 1) as nat),
                    deeds: b.deeds.push(Deed::Hook(hooks[i as int])),
                    ..b
                };
                assert(moves(n, b, Move::Call, c));
            } else {
                let c = Down {
                    leader: Leader::Over,
                    deeds: b.deeds.push(Deed::Reset),
                    ..b
                };
                assert(moves(n, b, Move::Reset, c));
            }
        },
        Leader::Over => {},
    }
}

} // verus!
