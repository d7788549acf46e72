//! The textual form of a collection's identity, from which the name of its
//! primary map in the persisted layout is made.

use vstd::prelude::*;

use crate::types::Serial;

verus! {

/// The error of `ron`, which the library passes on without looking into
/// it.
#[verifier::external_type_specification]
#[verifier::external_body]
pub struct ExRonError(ron::Error);

/// The text that `ron::ser::to_string` gives for the pair of a serial and
/// a name, or `None` where it refuses the pair.
pub uninterp spec fn ron_pair_text(serial: Serial, name: Seq<char>) -> Option<Seq<char>>;

/// Calls `ron::ser::to_string` on the pair (`serial`, `name`). The call
/// serialises with the default options into a fresh string and reads
/// nothing but its argument, so what it returns is a function of the pair:
/// the contract gives that function a name and claims no more. Nothing is
/// claimed of which pairs it accepts.
#[verifier::external_body]
pub(crate) fn ron_pair(serial: Serial, name: &str) -> (r: Result<String, ron::Error>)
    ensures
        match r {
            Ok(text) => ron_pair_text(serial, name@) == Some(text@),
            Err(_) => ron_pair_text(serial, name@) is None,
        },
{
    ron::ser::to_string(&(serial, name))
}

} // verus!
