//! The random-fill collaborator: draws entries from the process-wide
//! generator of the `rand` crate. Nothing is promised about the values
//! drawn, so every function that consumes them is verified for all of them.

use vstd::prelude::*;

use crate::entry::Entry;

verus! {

/// Relies on rand::random: draws one i64 from the thread-local generator.
/// The value is arbitrary, so nothing is promised of it.
#[verifier::external_body]
pub(crate) fn random_i64() -> i64 {
    rand::random()
}

/// Draws one well-formed random entry: an integer-valued ratio `d / 1`,
/// with a draw of `i64::MIN` folded back into the well-formed range.
pub(crate) fn random_entry() -> (r: Entry)
    ensures
        r.wf(),
{
    let d = random_i64();
    if d == i64::MIN {
        Entry::from_int(i64::MAX)
    } else {
        Entry::from_int(d)
    }
}

} // verus!
