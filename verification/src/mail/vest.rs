//! Vesting: handing a copy of a pie to another task.
use vstd::prelude::*;
use crate::mail::memo::Memo;
use crate::mail::narrow::{objection, with_rights};
use crate::mail::pie::law_within_is_transitive;
use crate::mail::pie::within;
use crate::mail::pie::{AnyPie, MailError, Pie};

verus! {

/// The pies of a task, and whether they can grow.
pub struct Pies {
    pub list: Vec<AnyPie>,
    /// Whether there is memory for one more.
    pub room: bool,
}

/// Why a pie cannot be handed on.
pub open spec fn obstacle(target: Option<Pies>, alive: bool) -> Option<MailError> {
    match target {
        None => Some(MailError::Denied),
        Some(p) => if !alive {
            Some(MailError::Dead)
        } else if !p.room {
            Some(MailError::OOM)
        } else {
            None
        },
    }
}

/// Whether `b` is a copy of `a` with the rights `subset`, from the hands of `vestor`.
pub open spec fn copy_of(a: AnyPie, b: AnyPie, subset: u32, vestor: usize) -> bool {
    &&& b.kind_spec() == a.kind_spec()
    &&& b.resource_spec() == a.resource_spec()
    &&& b.rights_spec() == subset
    &&& b.vestor_spec() == Some(vestor)
}

/// Gives a task a copy of `src` with the rights `subset`, and says at which place it stands
/// there. `src` itself keeps its rights. No target, no copy; and none of a pie whose resource
/// is gone.
pub fn vest(
    src: &AnyPie,
    memo: &Memo,
    target: &mut Option<Pies>,
    subset: u32,
    current_task_id: usize,
) -> (r: Result<usize, MailError>)
    ensures
        match obstacle(*old(target), src.alive_in(*memo)) {
            Some(e) => r == Err::<usize, MailError>(e) && *final(target) == *old(target),
            None => {
                &&& r == Ok::<usize, MailError>((*old(target))->0.list@.len() as usize)
                &&& *final(target) is Some
                &&& (*final(target))->0.room == (*old(target))->0.room
                &&& (*final(target))->0.list@.len() == (*old(target))->0.list@.len() + 1
                &&& (*final(target))->0.list@.drop_last() == (*old(target))->0.list@
                &&& copy_of(*src, (*final(target))->0.list@.last(), subset, current_task_id)
            },
        },
{
    match target.take() {
        None => Err(MailError::Denied),
        Some(pies) => {
            let mut pies: Pies = pies;
            let room: bool = pies.room;
            let alive: bool = src.alive(memo);
            if alive && room {
                let at: usize = pies.list.len();
                let ghost before = pies.list@;
                let copy: AnyPie = match src {
                    AnyPie::Hole(p) => AnyPie::Hole(
                        Pie::new(p.resource(), subset, Some(current_task_id)),
                    ),
                    AnyPie::Pole(p) => AnyPie::Pole(
                        Pie::new(p.resource(), subset, Some(current_task_id)),
                    ),
                };
                pies.list.push(copy);
                assert(pies.list@.drop_last() =~= before);
                *target = Some(pies);
                return Ok(at);
            }
            *target = Some(pies);
            if !alive {
                Err(MailError::Dead)
            } else {
                Err(MailError::OOM)
            }
        },
    }
}

/// Whether `b` came out of `a` in one step: by vesting some of its rights to another task, or
/// by narrowing it in place.
pub open spec fn passed_on(a: AnyPie, b: AnyPie, subset: u32, vestor: usize) -> bool {
    &&& objection(true, a.rights_spec(), subset) is None
    &&& copy_of(a, b, subset, vestor) || with_rights(a, b, subset)
}

/// Whether `b` came out of `a` in one step, with whatever rights and from whose hands ever.
pub open spec fn came_from(b: AnyPie, a: AnyPie) -> bool {
    exists|subset: u32, vestor: usize| #[trigger] passed_on(a, b, subset, vestor)
}

/// Whether every pie of `chain` came out of the one before it.
pub open spec fn handed_down(chain: Seq<AnyPie>) -> bool {
    forall|i: int| 0 < i < chain.len() ==> came_from(#[trigger] chain[i], chain[i - 1])
}

/// Authority only ever moves as a subset: however often a pie is vested and narrowed, what
/// comes out names the same resource and grants nothing that the first pie did not.
pub proof fn law_authority_only_shrinks(chain: Seq<AnyPie>)
    requires
        chain.len() > 0,
        handed_down(chain),
    ensures
        within(chain.last().rights_spec(), chain[0].rights_spec()),
        chain.last().resource_spec() == chain[0].resource_spec(),
        chain.last().kind_spec() == chain[0].kind_spec(),
    decreases chain.len(),
{
    if chain.len() == 1 {
        let r = chain[0].rights_spec();
        assert(r & r == r) by (bit_vector);
    } else {
        let last = chain.len() - 1;
        let shorter = chain.drop_last();
        assert(handed_down(shorter)) by {
            assert forall|i: int| 0 < i < shorter.len() implies came_from(
                #[trigger] shorter[i],
                shorter[i - 1],
            ) by {
                assert(came_from(chain[i], chain[i - 1]));
            }
        }
        law_authority_only_shrinks(shorter);
        assert(came_from(chain[last], chain[last - 1]));
        let (subset, vestor) = choose|subset: u32, vestor: usize| #[trigger]
            passed_on(chain[last - 1], chain[last], subset, vestor);
        assert(chain.last().rights_spec() == subset);
        assert(shorter.last() == chain[last - 1]);
        law_within_is_transitive(
            subset,
            shorter.last().rights_spec(),
            chain[0].rights_spec(),
        );
    }
}

} // verus!
