//! The tie between the harts of a room.
pub use crate::tie::{Halt, Tie, done, exit, gathered, halt, push, sleep, wake};

pub use crate::tie::{is_done, marked};

use vstd::prelude::*;
use crate::bits::Ipi;
use crate::bits::{reaches_all, word_calls};
use crate::tie;

verus! {

/// The calls that interrupt every waiting hart, one for each word that has any.
pub fn yell(tie: &Tie) -> (calls: Vec<Ipi>)
    ensures
        word_calls(calls@, tie.waiting),
        reaches_all(calls@, tie.waiting),
{
    tie::wake_all(tie)
}

} // verus!
