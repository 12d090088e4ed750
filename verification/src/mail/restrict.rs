//! Restricting a pie: see [`crate::mail::narrow`]. Copies that were handed on keep their
//! rights.
use vstd::prelude::*;
use crate::mail::memo::Memo;
use crate::mail::narrow::set_perm;
use crate::mail::narrow::{objection, with_rights};
use crate::mail::pie::{AnyPie, MailError};

verus! {

/// Restricts a pie of either kind to `subset`.
pub fn restrict(src: &mut AnyPie, memo: &Memo, subset: u32) -> (r: Result<(), MailError>)
    ensures
        r == (match objection(old(src).alive_in(*memo), old(src).rights_spec(), subset) {
            Some(e) => Err::<(), MailError>(e),
            None => Ok::<(), MailError>(()),
        }),
        r is Ok ==> with_rights(*old(src), *final(src), subset),
        r is Err ==> *final(src) == *old(src),
{
    match src {
        AnyPie::Hole(p) => set_perm(p, memo, subset),
        AnyPie::Pole(p) => set_perm(p, memo, subset),
    }
}

} // verus!
