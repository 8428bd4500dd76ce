//! The random source that maze generation draws from.
//!
//! Nothing in this file is proved: each item states what is taken on trust
//! from the `rand` crate. The generator seeds itself from the operating
//! system, on first use and again from time to time. If the system refuses
//! to supply entropy the calls below panic; nothing that is handed to them
//! brings that about.

use vstd::prelude::*;
use rand::rngs::ThreadRng;
use rand::seq::SliceRandom;
use crate::carve::Opening;

verus! {

/// `rand::rngs::ThreadRng`, a handle to the generator of the running thread.
/// The library only carries it from where it is obtained to where it is
/// drawn from.
#[verifier::external_type_specification]
#[verifier::external_body]
pub struct ExThreadRng(ThreadRng);

/// `rand::thread_rng` hands out the handle. Nothing is claimed of it.
pub assume_specification[ rand::thread_rng ]() -> (rng: ThreadRng);

/// `SliceRandom::choose` on a slice of openings: it yields nothing when the
/// slice is empty, and otherwise a reference to one of the slice's entries,
/// the one at an index that it draws from the generator. Which entry that
/// is depends on the generator, so the contract says no more than that it is
/// one of them.
#[verifier::external_body]
pub(crate) fn choose_opening<'a>(options: &'a Vec<Opening>, rng: &mut ThreadRng) -> (picked: Option<
    &'a Opening,
>)
    ensures
        options@.len() == 0 ==> picked is None,
        options@.len() > 0 ==> picked is Some && options@.contains(*picked->0),
{
    options.choose(rng)
}

} // verus!
