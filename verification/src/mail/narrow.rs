//! Narrowing a pie: its rights shrink, in place and for good.
use vstd::prelude::*;
use crate::mail::memo::Memo;
use crate::mail::pie::{AnyPie, MailError, Pie, ResourceKind};
use crate::mail::pie::{law_within_is_transitive, within};

verus! {

/// Why the rights of a pie cannot become `subset`.
pub open spec fn objection(alive: bool, rights: u32, subset: u32) -> Option<MailError> {
    if !alive {
        Some(MailError::Dead)
    } else if subset == 0 || !within(subset, rights) {
        Some(MailError::Denied)
    } else {
        None
    }
}

/// Gives a pie the rights `subset`, which must be some of those it has.
pub fn set_perm<T: ResourceKind>(pie: &mut Pie<T>, memo: &Memo, subset: u32) -> (r: Result<
    (),
    MailError,
>)
    ensures
        r == (match objection(memo@.contains_key(old(pie).resource.0), old(pie).rights, subset) {
            Some(e) => Err::<(), MailError>(e),
            None => Ok::<(), MailError>(()),
        }),
        r is Ok ==> *final(pie) == (Pie { rights: subset, ..*old(pie) }),
        r is Err ==> *final(pie) == *old(pie),
{
    if !pie.alive(memo) {
        return Err(MailError::Dead);
    }
    if subset == 0 || (subset & pie.rights) != subset {
        return Err(MailError::Denied);
    }
    pie.rights = subset;
    Ok(())
}

/// Whether `b` is the pie `a` with the rights `subset`.
pub open spec fn with_rights(a: AnyPie, b: AnyPie, subset: u32) -> bool {
    match (a, b) {
        (AnyPie::Hole(p), AnyPie::Hole(q)) => q == (Pie { rights: subset, ..p }),
        (AnyPie::Pole(p), AnyPie::Pole(q)) => q == (Pie { rights: subset, ..p }),
        _ => false,
    }
}

/// Narrows a pie of either kind. Its resource and its vestor stay.
pub fn narrow(src: &mut AnyPie, memo: &Memo, subset: u32) -> (r: Result<(), MailError>)
    ensures
        r == (match objection(old(src).alive_in(*memo), old(src).rights_spec(), subset) {
            Some(e) => Err::<(), MailError>(e),
            None => Ok::<(), MailError>(()),
        }),
        r is Ok ==> with_rights(*old(src), *final(src), subset),
        r is Err ==> *final(src) == *old(src),
{
    match src {
        AnyPie::Hole(p) => set_perm(p, memo, subset),
        AnyPie::Pole(p) => set_perm(p, memo, subset),
    }
}

/// Rights that were narrowed away do not come back: what a pie narrowed twice may do, it
/// could do from the start.
pub proof fn law_narrowing_only_shrinks(rights: u32, first: u32, second: u32)
    requires
        objection(true, rights, first) is None,
        objection(true, first, second) is None,
    ensures
        within(second, rights),
        second != 0,
{
    law_within_is_transitive(second, first, rights);
}

} // verus!
